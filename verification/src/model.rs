use vstd::prelude::*;

use crate::text::{push_char, string_from};
use crate::units::{bytes_text, format_bytes};

verus! {

/// Where a row of the inventory comes from.
#[derive(Clone, Copy, Debug, PartialEq, Eq, Structural)]
pub enum ModelStatus {
    Installed,
    Loaded,
    Process,
}

/// The word that names a status in the table.
pub open spec fn status_text(s: ModelStatus) -> Seq<char> {
    match s {
        ModelStatus::Installed => "installed"@,
        ModelStatus::Loaded => "loaded"@,
        ModelStatus::Process => "process"@,
    }
}

impl ModelStatus {
    /// The word that names this status: `installed`, `loaded` or `process`.
    pub fn label(&self) -> (s: String)
        ensures
            s@ == status_text(*self),
    {
        match self {
            ModelStatus::Installed => string_from("installed"),
            ModelStatus::Loaded => string_from("loaded"),
            ModelStatus::Process => string_from("process"),
        }
    }
}

/// One model of the inventory, installed or running.
///
/// A CPU share is held as `ps` wrote it (it is read as a number only where
/// it is shown), a path as its text.
#[derive(Clone, Debug, PartialEq, Eq)]
pub struct ModelInfo {
    pub provider: String,
    pub name: String,
    pub status: ModelStatus,
    pub size_bytes: Option<u64>,
    pub size_text: Option<String>,
    pub pid: Option<u32>,
    pub cpu_text: Option<String>,
    pub memory_bytes: Option<u64>,
    pub path: Option<String>,
}

/// A `ModelInfo` with its strings taken as characters.
pub struct ModelView {
    pub provider: Seq<char>,
    pub name: Seq<char>,
    pub status: ModelStatus,
    pub size_bytes: Option<u64>,
    pub size_text: Option<Seq<char>>,
    pub pid: Option<u32>,
    pub cpu_text: Option<Seq<char>>,
    pub memory_bytes: Option<u64>,
    pub path: Option<Seq<char>>,
}

pub open spec fn opt_text(o: Option<String>) -> Option<Seq<char>> {
    match o {
        Some(s) => Some(s@),
        None => None,
    }
}

impl View for ModelInfo {
    type V = ModelView;

    open spec fn view(&self) -> ModelView {
        ModelView {
            provider: self.provider@,
            name: self.name@,
            status: self.status,
            size_bytes: self.size_bytes,
            size_text: opt_text(self.size_text),
            pid: self.pid,
            cpu_text: opt_text(self.cpu_text),
            memory_bytes: self.memory_bytes,
            path: opt_text(self.path),
        }
    }
}

/// The views of a sequence of models.
pub open spec fn models_view(v: Seq<ModelInfo>) -> Seq<ModelView> {
    v.map_values(|m: ModelInfo| m@)
}

/// A process as `ps` lists it; its CPU share as `ps` wrote it.
#[derive(Clone, Debug, PartialEq, Eq)]
pub struct ProcessInfo {
    pub pid: u32,
    pub cpu_text: Option<String>,
    pub memory_bytes: Option<u64>,
    pub command: String,
}

/// A `ProcessInfo` with its command taken as characters.
pub struct ProcessView {
    pub pid: u32,
    pub cpu_text: Option<Seq<char>>,
    pub memory_bytes: Option<u64>,
    pub command: Seq<char>,
}

impl View for ProcessInfo {
    type V = ProcessView;

    open spec fn view(&self) -> ProcessView {
        ProcessView {
            pid: self.pid,
            cpu_text: opt_text(self.cpu_text),
            memory_bytes: self.memory_bytes,
            command: self.command@,
        }
    }
}

/// The views of a sequence of processes.
pub open spec fn processes_view(v: Seq<ProcessInfo>) -> Seq<ProcessView> {
    v.map_values(|p: ProcessInfo| p@)
}

/// The text that stands for a missing value in the table.
pub open spec fn dash() -> Seq<char> {
    seq!['-']
}

/// The size column: the size as the provider wrote it, else the byte count
/// for people, else a dash.
pub open spec fn size_label_text(m: ModelView) -> Seq<char> {
    match (m.size_text, m.size_bytes) {
        (Some(t), _) => t,
        (None, Some(b)) => bytes_text(b as nat),
        (None, None) => dash(),
    }
}

/// The memory column: the resident memory for people, else a dash.
pub open spec fn memory_label_text(m: ModelView) -> Seq<char> {
    match m.memory_bytes {
        Some(b) => bytes_text(b as nat),
        None => dash(),
    }
}

fn dash_string() -> (s: String)
    ensures
        s@ == dash(),
{
    let mut s = String::new();
    push_char(&mut s, '-');
    assert(s@ =~= dash());
    s
}

impl ModelInfo {
    /// The size column of the table.
    pub fn size_label(&self) -> (s: String)
        ensures
            s@ == size_label_text(self@),
    {
        match (&self.size_text, self.size_bytes) {
            (Some(t), _) => string_from(t.as_str()),
            (None, Some(b)) => format_bytes(b),
            (None, None) => dash_string(),
        }
    }

    /// The memory column of the table.
    pub fn memory_label(&self) -> (s: String)
        ensures
            s@ == memory_label_text(self@),
    {
        match self.memory_bytes {
            Some(b) => format_bytes(b),
            None => dash_string(),
        }
    }
}

/// A fresh copy of an optional string.
pub fn copy_text(o: &Option<String>) -> (r: Option<String>)
    ensures
        opt_text(r) == opt_text(*o),
{
    match o {
        Some(s) => Some(string_from(s.as_str())),
        None => None,
    }
}

} // verus!
