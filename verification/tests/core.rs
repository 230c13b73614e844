use llmctl::{
    detect_llamacpp_loaded, parse_ollama_list, remove_command, scan_lmstudio_models, ModelDir,
    ModelStatus, ProcessInfo,
};

#[test]
fn parses_ollama_list_output() {
    let output = "\
NAME                                      ID              SIZE       MODIFIED
hf.co/unsloth/gemma-4-12b-it-GGUF:BF16    62bdaffafe8d    1.0 GB     17 minutes ago
gemma4:12b-mlx                            7c75d6f0f4b9    10.0 GB    50 minutes ago
qwen3.6:27b                               a50eda8ed977    17 GB      4 weeks ago
";

    let models = parse_ollama_list(output);

    assert_eq!(models.len(), 3);
    assert_eq!(models[0].provider, "ollama");
    assert_eq!(models[0].name, "hf.co/unsloth/gemma-4-12b-it-GGUF:BF16");
    assert_eq!(models[0].size_label(), "1.0 GB");
    assert_eq!(models[2].name, "qwen3.6:27b");
    assert_eq!(models[2].size_label(), "17 GB");
}

#[test]
fn scans_lmstudio_org_model_directories_and_sizes_them() {
    let dirs = vec![ModelDir {
        org: "lmstudio-community".to_string(),
        model: "Qwen3-Coder-Next-MLX-4bit".to_string(),
        path: "/tmp/models/lmstudio-community/Qwen3-Coder-Next-MLX-4bit".to_string(),
        size_bytes: 7,
    }];

    let models = scan_lmstudio_models(dirs);

    assert_eq!(models.len(), 1);
    assert_eq!(models[0].provider, "lmstudio");
    assert_eq!(
        models[0].name,
        "lmstudio-community/Qwen3-Coder-Next-MLX-4bit"
    );
    assert_eq!(models[0].size_bytes, Some(7));
}

#[test]
fn detects_loaded_llamacpp_model_from_process_args() {
    let processes = vec![ProcessInfo {
        pid: 42,
        cpu_text: Some("12.5".to_string()),
        memory_bytes: Some(2048),
        command: "/usr/local/bin/llama-server -m /models/foo.gguf --port 8080".to_string(),
    }];

    let loaded = detect_llamacpp_loaded(&processes);

    assert_eq!(loaded.len(), 1);
    assert_eq!(loaded[0].provider, "llama.cpp");
    assert_eq!(loaded[0].name, "/models/foo.gguf");
    assert_eq!(loaded[0].status, ModelStatus::Loaded);
    assert_eq!(loaded[0].pid, Some(42));
}

#[test]
fn remove_prints_provider_specific_command_without_deleting() {
    assert_eq!(
        remove_command("ollama", "qwen3.6:27b").unwrap(),
        "ollama rm qwen3.6:27b"
    );
    assert_eq!(
        remove_command("lmstudio", "lmstudio-community/foo").unwrap(),
        "lms unload lmstudio-community/foo && rm -rf ~/.lmstudio/models/lmstudio-community/foo"
    );
    assert_eq!(
        remove_command("llama.cpp", "/models/foo.gguf").unwrap(),
        "rm /models/foo.gguf"
    );
}
