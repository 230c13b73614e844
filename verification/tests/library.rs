use llmctl::llamacpp::has_gguf_extension;
use llmctl::{
    extract_gguf_path, format_bytes, is_llamacpp_process, merge_running,
    ollama_models_from_manifests, parse_ollama_ps, parse_ps_output, process_provider,
    processes_to_rows, relevant_processes, remove_command, remove_request, scan_llamacpp_files,
    sort_models, table_header, table_row, total_storage, truncate, try_parse_ps_output, GgufCandidate,
    ManifestFile, ModelInfo, ModelStatus, ProcessInfo, SortOrder,
};

fn float_format_bytes(bytes: u64) -> String {
    let units = ["B", "KB", "MB", "GB", "TB"];
    let mut value = bytes as f64;
    let mut unit = units[0];
    for next in units.iter().skip(1) {
        if value < 1024.0 {
            break;
        }
        value /= 1024.0;
        unit = next;
    }
    if unit == "B" {
        format!("{bytes} B")
    } else if value >= 10.0 {
        format!("{value:.0} {unit}")
    } else {
        format!("{value:.1} {unit}")
    }
}

fn model(provider: &str, name: &str) -> ModelInfo {
    ModelInfo {
        provider: provider.to_string(),
        name: name.to_string(),
        status: ModelStatus::Installed,
        size_bytes: None,
        size_text: None,
        pid: None,
        cpu_text: None,
        memory_bytes: None,
        path: None,
    }
}

#[test]
fn format_bytes_gives_exact_values() {
    assert_eq!(format_bytes(0), "0 B");
    assert_eq!(format_bytes(1023), "1023 B");
    assert_eq!(format_bytes(1024), "1.0 KB");
    assert_eq!(format_bytes(1536), "1.5 KB");
    assert_eq!(format_bytes(10 * 1024), "10 KB");
    assert_eq!(format_bytes(17 * 1024 * 1024 * 1024), "17 GB");
    assert_eq!(format_bytes(2048), "2.0 KB");
}

#[test]
fn format_bytes_agrees_with_floating_point() {
    let mut values: Vec<u64> = (0..5000).collect();
    for k in 1..64u32 {
        let p = 1u64 << k;
        for d in 0..8u64 {
            values.push(p.wrapping_add(d));
            values.push(p.wrapping_sub(d));
        }
    }
    for scale in [1u64 << 10, 1 << 20, 1 << 30, 1 << 40] {
        for tenths in 0..200u64 {
            values.push(scale / 10 * tenths);
            values.push(scale * tenths / 20);
            values.push(scale * tenths / 20 + 1);
            values.push((scale * tenths / 20).saturating_sub(1));
        }
    }
    let mut x: u64 = 0x9e37_79b9_7f4a_7c15;
    for _ in 0..20000 {
        x ^= x << 13;
        x ^= x >> 7;
        x ^= x << 17;
        values.push(x);
        values.push(x >> (x % 64));
    }
    values.push(u64::MAX);
    values.push(u64::MAX - 1024);
    values.push((1u64 << 53) + 1);
    values.push((1u64 << 60) + (1 << 39));
    for v in values {
        assert_eq!(format_bytes(v), float_format_bytes(v), "bytes = {v}");
    }
}

#[test]
fn size_and_memory_labels_fill_in_missing_values_with_a_dash() {
    let mut m = model("ollama", "a");
    assert_eq!(m.size_label(), "-");
    assert_eq!(m.memory_label(), "-");
    m.size_bytes = Some(3 * 1024 * 1024);
    m.memory_bytes = Some(512);
    assert_eq!(m.size_label(), "3.0 MB");
    assert_eq!(m.memory_label(), "512 B");
    m.size_text = Some("4.1 GB".to_string());
    assert_eq!(m.size_label(), "4.1 GB");
}

#[test]
fn status_labels() {
    assert_eq!(ModelStatus::Installed.label(), "installed");
    assert_eq!(ModelStatus::Loaded.label(), "loaded");
    assert_eq!(ModelStatus::Process.label(), "process");
}

#[test]
fn ollama_ps_gives_loaded_models_and_skips_short_lines() {
    let output = "NAME ID SIZE PROCESSOR UNTIL\r\nqwen3:8b 500a1f067a9f 6.0 GB 100% GPU 4 minutes\r\nbroken line\n";
    let models = parse_ollama_ps(output);
    assert_eq!(models.len(), 1);
    assert_eq!(models[0].name, "qwen3:8b");
    assert_eq!(models[0].status, ModelStatus::Loaded);
    assert_eq!(models[0].size_text.as_deref(), Some("6.0 GB"));
    assert!(parse_ollama_ps("").is_empty());
    assert!(parse_ollama_ps("only a header with many words").is_empty());
}

#[test]
fn manifests_name_library_and_namespaced_models() {
    let file = |parts: &[&str]| ManifestFile {
        components: parts.iter().map(|p| p.to_string()).collect(),
        path: format!("/m/{}", parts.join("/")),
    };
    let models = ollama_models_from_manifests(vec![
        file(&["registry.ollama.ai", "library", "qwen3", "8b"]),
        file(&["hf.co", "unsloth", "gemma", "BF16"]),
        file(&["too", "short", "x"]),
        file(&["registry.ollama.ai", "library", "llama3", "latest"]),
    ]);
    let names: Vec<&str> = models.iter().map(|m| m.name.as_str()).collect();
    assert_eq!(names, vec!["hf.co/unsloth/gemma:BF16", "llama3:latest", "qwen3:8b"]);
    assert_eq!(models[1].path.as_deref(), Some("/m/registry.ollama.ai/library/llama3/latest"));
    assert!(models.iter().all(|m| m.provider == "ollama" && m.status == ModelStatus::Installed));
}

#[test]
fn gguf_files_are_found_by_extension_and_sorted() {
    let cand = |path: &str, name: &str, size: Option<u64>| GgufCandidate {
        path: path.to_string(),
        file_name: name.to_string(),
        size_bytes: size,
    };
    let models = scan_llamacpp_files(vec![
        cand("/m/b.gguf", "b.gguf", Some(10)),
        cand("/m/.gguf", ".gguf", Some(1)),
        cand("/m/a.gguf", "a.gguf", None),
        cand("/m/notes.txt", "notes.txt", Some(3)),
        cand("/m/c.GGUF", "c.GGUF", Some(3)),
    ]);
    let names: Vec<&str> = models.iter().map(|m| m.name.as_str()).collect();
    assert_eq!(names, vec!["/m/a.gguf", "/m/b.gguf"]);
    assert_eq!(models[1].size_bytes, Some(10));
    assert!(has_gguf_extension("x.tar.gguf"));
    assert!(!has_gguf_extension("gguf"));
    assert!(!has_gguf_extension("x.gguf.bak"));
}

#[test]
fn gguf_path_is_taken_from_the_first_gguf_word_without_quotes() {
    assert_eq!(extract_gguf_path("llama-cli -m \"/m/a b.gguf\""), None);
    assert_eq!(
        extract_gguf_path("llama-cli -m \"'/m/x.gguf"),
        Some("/m/x.gguf".to_string())
    );
    assert_eq!(
        extract_gguf_path("llama-cli -m '\"/m/x.gguf"),
        Some("\"/m/x.gguf".to_string())
    );
    assert_eq!(
        extract_gguf_path("llama-cli -m '/m/x.gguf' /m/y.gguf"),
        Some("/m/y.gguf".to_string())
    );
    assert_eq!(extract_gguf_path("llama-cli --help"), None);
}

#[test]
fn llamacpp_processes_are_recognised_in_any_case() {
    assert!(is_llamacpp_process("/opt/LLAMA-SERVER --port 1"));
    assert!(is_llamacpp_process("./bin/main -m x.gguf"));
    assert!(is_llamacpp_process("/usr/bin/main"));
    assert!(!is_llamacpp_process("/usr/bin/mainline"));
    assert!(!is_llamacpp_process("python server.py"));
}

#[test]
fn ps_output_is_parsed_line_by_line() {
    let output = "  101  12.5  2048 /usr/local/bin/ollama serve\n\
                  x 1.0 10 bad pid\n\
                  202 0.0 10\n\
                  303 abc xyz llama-server   -m   /m/a.gguf\n";
    let ps = parse_ps_output(output);
    assert_eq!(ps.len(), 2);
    assert_eq!(ps[0].pid, 101);
    assert_eq!(ps[0].cpu_text.as_deref(), Some("12.5"));
    assert_eq!(ps[0].memory_bytes, Some(2048 * 1024));
    assert_eq!(ps[0].command, "/usr/local/bin/ollama serve");
    assert_eq!(ps[1].pid, 303);
    assert_eq!(ps[1].cpu_text.as_deref(), Some("abc"));
    assert_eq!(ps[1].memory_bytes, None);
    assert_eq!(ps[1].command, "llama-server -m /m/a.gguf");
    assert_eq!(try_parse_ps_output(output), Some(ps));
}

#[test]
fn ps_memory_that_overflows_is_refused() {
    let huge = format!("1 0.0 {} cmd\n", u64::MAX / 1024 + 1);
    assert_eq!(try_parse_ps_output(&huge), None);
    let fits = format!("1 0.0 {} cmd\n", u64::MAX / 1024);
    assert_eq!(try_parse_ps_output(&fits).unwrap()[0].memory_bytes, Some(u64::MAX / 1024 * 1024));
}

#[test]
fn relevant_processes_keep_model_runners_in_order() {
    let p = |pid: u32, cmd: &str| ProcessInfo {
        pid,
        cpu_text: None,
        memory_bytes: None,
        command: cmd.to_string(),
    };
    let kept = relevant_processes(vec![
        p(1, "/usr/bin/Ollama serve"),
        p(2, "/bin/zsh"),
        p(3, "/Applications/LM Studio.app/x"),
        p(4, "llama-server -m a.gguf"),
        p(5, "vim notes"),
    ]);
    let pids: Vec<u32> = kept.iter().map(|p| p.pid).collect();
    assert_eq!(pids, vec![1, 3, 4]);
    assert_eq!(process_provider("/usr/bin/Ollama serve"), "ollama");
    assert_eq!(process_provider("/Applications/LM Studio.app/x"), "lmstudio");
    assert_eq!(process_provider("llama-server"), "llama.cpp");
    let rows = processes_to_rows(kept);
    assert_eq!(rows.len(), 3);
    assert_eq!(rows[1].provider, "lmstudio");
    assert_eq!(rows[1].status, ModelStatus::Process);
    assert_eq!(rows[2].pid, Some(4));
}

#[test]
fn remove_reports_unknown_provider_and_missing_words() {
    assert_eq!(remove_command("llamacpp", "x").unwrap(), "rm x");
    assert_eq!(
        remove_command("vllm", "x"),
        Err("unknown provider: vllm".to_string())
    );
    assert_eq!(
        remove_request(None, None),
        Err("missing provider".to_string())
    );
    assert_eq!(
        remove_request(Some("ollama".to_string()), None),
        Err("missing model".to_string())
    );
    assert_eq!(
        remove_request(Some("ollama".to_string()), Some("m".to_string())),
        Ok("ollama rm m".to_string())
    );
}

#[test]
fn running_models_mark_installed_ones_or_are_added() {
    let installed = vec![model("ollama", "a"), model("ollama", "b")];
    let mut run_b = model("ollama", "b");
    run_b.status = ModelStatus::Loaded;
    run_b.pid = Some(9);
    run_b.memory_bytes = Some(100);
    run_b.cpu_text = Some("3.5".to_string());
    let mut run_c = model("llama.cpp", "/m/c.gguf");
    run_c.status = ModelStatus::Loaded;
    let merged = merge_running(installed, vec![run_b, run_c]);
    assert_eq!(merged.len(), 3);
    assert_eq!(merged[0].status, ModelStatus::Installed);
    assert_eq!(merged[1].status, ModelStatus::Loaded);
    assert_eq!(merged[1].pid, Some(9));
    assert_eq!(merged[1].memory_bytes, Some(100));
    assert_eq!(merged[1].cpu_text.as_deref(), Some("3.5"));
    assert_eq!(merged[2].name, "/m/c.gguf");
}

#[test]
fn storage_total_adds_known_sizes() {
    let mut a = model("x", "a");
    a.size_bytes = Some(5);
    let b = model("x", "b");
    let mut c = model("x", "c");
    c.size_bytes = Some(7);
    assert_eq!(total_storage(&vec![a.clone(), b, c]), Some(12));
    let mut big = model("x", "big");
    big.size_bytes = Some(u64::MAX);
    assert_eq!(total_storage(&vec![a, big]), None);
}

#[test]
fn truncate_marks_cut_names() {
    assert_eq!(truncate("abcdef", 6), "abcdef");
    assert_eq!(truncate("abcdefg", 6), "abc...");
    assert_eq!(truncate("abcdefg", 2), "...");
    assert_eq!(truncate("ééééé", 4), "é...");
}

#[test]
fn table_lines_pad_columns() {
    let mut m = model("ollama", "qwen3:8b");
    m.size_text = Some("5.2 GB".to_string());
    m.pid = Some(42);
    let expected = format!(
        "{:<12} {:<60} {} {:>10} {:>8} {:>10} {:>8}",
        "ollama", "qwen3:8b", "installed", "5.2 GB", "-", "-", "42"
    );
    assert_eq!(table_row(&m, "-"), expected);
    let header = format!(
        "{:<12} {:<60} {:<10} {:>10} {:>8} {:>10} {:>8}",
        "Provider", "Model", "Status", "Size", "CPU", "Memory", "PID"
    );
    assert_eq!(table_header(), header);
    assert!(table_row(&m, "12.5%").contains("   12.5% "));
}

#[test]
fn sorting_is_stable_and_by_provider_then_name() {
    let mut first = model("ollama", "b");
    first.pid = Some(1);
    let mut second = model("ollama", "b");
    second.pid = Some(2);
    let sorted = sort_models(
        vec![model("lmstudio", "z"), first, model("llama.cpp", "c"), second, model("ollama", "a")],
        SortOrder::ByProviderThenName,
    );
    let keys: Vec<(String, String, Option<u32>)> = sorted
        .iter()
        .map(|m| (m.provider.clone(), m.name.clone(), m.pid))
        .collect();
    assert_eq!(
        keys,
        vec![
            ("llama.cpp".to_string(), "c".to_string(), None),
            ("lmstudio".to_string(), "z".to_string(), None),
            ("ollama".to_string(), "a".to_string(), None),
            ("ollama".to_string(), "b".to_string(), Some(1)),
            ("ollama".to_string(), "b".to_string(), Some(2)),
        ]
    );
    let by_name = sort_models(vec![model("x", "éa"), model("x", "z"), model("x", "Z")], SortOrder::ByName);
    let names: Vec<&str> = by_name.iter().map(|m| m.name.as_str()).collect();
    assert_eq!(names, vec!["Z", "z", "éa"]);
}

#[test]
fn ps_and_list_read_the_same_table() {
    let table = "NAME ID SIZE MODIFIED\nqwen3:8b abc 5.2 GB now\nx\nllama3:latest def 4.7 GB today\n";
    let listed = llmctl::parse_ollama_list(table);
    let loaded = parse_ollama_ps(table);
    assert_eq!(listed.len(), loaded.len());
    for (a, b) in listed.iter().zip(loaded.iter()) {
        assert_eq!(a.name, b.name);
        assert_eq!(a.size_text, b.size_text);
        assert_eq!(a.status, ModelStatus::Installed);
        assert_eq!(b.status, ModelStatus::Loaded);
    }
}

#[test]
fn the_header_line_is_never_a_model() {
    let table = "qwen3:8b abc 5.2 GB now\nllama3:latest def 4.7 GB today\n";
    let listed = llmctl::parse_ollama_list(table);
    assert_eq!(listed.len(), 1);
    assert_eq!(listed[0].name, "llama3:latest");
}

#[test]
fn tables_under_one_header_read_block_by_block() {
    let header = "NAME ID SIZE MODIFIED";
    let a = "qwen3:8b abc 5.2 GB now\nshort\n";
    let b = "llama3:latest def 4.7 GB today\n";
    let names = |text: String| -> Vec<String> {
        llmctl::parse_ollama_list(&text).into_iter().map(|m| m.name).collect()
    };
    let joined = names(format!("{header}\n{a}{b}"));
    let mut parts = names(format!("{header}\n{a}"));
    parts.extend(names(format!("{header}\n{b}")));
    assert_eq!(joined, parts);
    assert_eq!(joined, vec!["qwen3:8b", "llama3:latest"]);
}

#[test]
fn ollama_list_is_used_only_when_it_succeeds_and_names_a_model() {
    let table = "NAME ID SIZE MODIFIED\nqwen3:8b abc 5.2 GB now\n";
    let models = llmctl::listed_models(true, table).unwrap();
    assert_eq!(models.len(), 1);
    assert_eq!(models[0].name, "qwen3:8b");
    assert!(llmctl::listed_models(false, table).is_none());
    assert!(llmctl::listed_models(true, "NAME ID SIZE MODIFIED\n").is_none());
}

#[test]
fn lmstudio_directory_sizes_add_up() {
    assert_eq!(llmctl::sum_sizes(&vec![7]), Some(7));
    assert_eq!(llmctl::sum_sizes(&vec![]), Some(0));
    assert_eq!(llmctl::sum_sizes(&vec![3, 4, 5]), Some(12));
    assert_eq!(llmctl::sum_sizes(&vec![u64::MAX, 1]), None);
}
