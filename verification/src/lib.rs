pub mod inventory;
pub mod llamacpp;
pub mod lmstudio;
pub mod model;
pub mod numbers;
pub mod ollama;
pub mod process;
pub mod sorting;
pub mod text;
pub mod units;

pub use inventory::{
    merge_running, remove_command, remove_request, sum_sizes, table_header, table_row, total_storage,
    truncate,
};
pub use llamacpp::{
    detect_llamacpp_loaded, extract_gguf_path, is_llamacpp_process, scan_llamacpp_files,
    GgufCandidate,
};
pub use lmstudio::{scan_lmstudio_models, ModelDir};
pub use model::{ModelInfo, ModelStatus, ProcessInfo};
pub use ollama::{listed_models, ollama_models_from_manifests, parse_ollama_list, parse_ollama_ps, ManifestFile};
pub use process::{
    parse_ps_output, process_provider, processes_to_rows, relevant_processes, try_parse_ps_output,
};
pub use sorting::{sort_models, SortOrder};
pub use units::format_bytes;
