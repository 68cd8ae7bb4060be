//! The message taxonomy of the protocol bridge: requests sent to the Slynk
//! server, answers received from it, and the client-side bookkeeping types.

use vstd::prelude::*;

verus! {

/// An id paired with a display name.
#[derive(Debug, Clone)]
pub struct IdNamePair {
    pub id: u32,
    pub name: String,
}

/// One node of the file tree shown by the UI.
#[derive(Debug, Clone)]
pub struct FileTreeNode {
    pub path: String,
    pub name: String,
    pub node_type: FileTreeNodeType,
}

impl FileTreeNode {
    /// A node with the given path, display name and type.
    pub fn new(path: &str, name: &str, node_type: FileTreeNodeType) -> (r: Self)
        ensures
            r.path@ == path@,
            r.name@ == name@,
            r.node_type == node_type,
    {
        Self { path: path.to_owned(), name: name.to_owned(), node_type }
    }
}

/// What kind of entry a file tree node stands for.
#[derive(Debug, Clone, PartialEq, Eq, Structural)]
pub enum FileTreeNodeType {
    Lisp,
    Dir,
    Other,
}

/// What kind of Lisp object a symbol names.
#[derive(Debug, Clone, PartialEq, Eq, Structural)]
pub enum SymbolType {
    Macro,
    Function,
    Class,
    Var,
}

/// A symbol of a package, with its kind.
#[derive(Debug, Clone)]
pub struct Symbol {
    pub name: String,
    pub stype: SymbolType,
}

/// An answer pushed or returned by the Slynk server, after decoding; the
/// `Notify` and `ResolvePending` variants are synthesized on the client from
/// a `Return` and its pending action.
#[derive(Debug, Clone)]
pub enum SlynkAnswer {
    WriteString { value: String, repl_result: bool },
    NewPackage { package_name: String, prompt: String },
    Return { continuation: usize, status: ReturnStatus, value: String },
    ReturnCompilationResult {
        continuation: usize,
        notes: Option<Vec<CompilerNotes>>,
        success: bool,
        /// The compilation time in seconds, kept as the decimal literal the
        /// server sent.
        duration: String,
        loadp: bool,
        fasl_file: Option<String>,
    },
    ReturnFindDefinitionResult { continuation: usize, definitions: Vec<FoundDefinition> },
    Debug {
        thread: usize,
        level: usize,
        condition: DebugCondition,
        restarts: Vec<Restart>,
        frames: Vec<String>,
        continuations: Vec<String>,
    },
    DebugActivate { level: usize, thread: usize },
    DebugReturn { level: usize, thread: usize },
    ChannelSend { channel: usize, method: ChannelMethod },
    ReadFromMinibuffer { thread: usize, tag: usize, prompt: String, initial_value: Option<String> },
    IndentationUpdate,
    NewFeatures,
    Notify { text: String, error: bool },
    ResolvePending { continuation: usize, data: String },
}

/// Whether a `Return` reported success (`:ok`) or an abort (`:abort`).
#[derive(Debug, Clone, PartialEq, Eq, Structural)]
pub enum ReturnStatus {
    Okay,
    Abort,
}

/// One note of a compilation result: the compiler's message, its severity,
/// and where it points.
#[derive(Debug, Clone)]
pub struct CompilerNotes {
    pub message: String,
    pub severity: String,
    pub file: Option<String>,
    pub position: Option<usize>,
}

/// One entry of a find-definitions result: either a source location or an
/// error string, under a display label.
#[derive(Debug, Clone)]
pub struct FoundDefinition {
    pub label: String,
    pub error: Option<String>,
    pub file: Option<String>,
    pub position: Option<usize>,
    pub snippet: Option<String>,
}

/// A server push wrapped in a `:channel-send` envelope.
#[derive(Debug, Clone)]
pub enum ChannelMethod {
    Prompt {
        package: String,
        prompt: String,
        elevel: usize,
        len_history: usize,
        condition: Option<String>,
    },
    WriteValues(Vec<(String, usize, String)>),
    WriteString(String),
    EvaluationAborted(String),
    Unknown(String),
}

/// A recovery option offered while inside a debugger level.
#[derive(Debug, Clone)]
pub struct Restart {
    pub short: String,
    pub desc: String,
}

/// The condition that opened a debugger level: description and type.
#[derive(Debug, Clone)]
pub struct DebugCondition {
    pub desc: String,
    pub ctype: String,
}

/// A request for the Slynk server.
#[derive(Debug, Clone)]
pub enum SlynkMessage {
    Eval(String),
    InteractiveEval(String),
    InvokeNthRestart(usize, usize, usize),
    CompileAndLoadFile(String),
    LoadFile(String),
    FindDefinitions(String),
    Stop,
    EmacsReturn(String, usize, usize),
    CompileStringForEmacs {
        string: String,
        buffer: String,
        position: EditorPosition,
        filename: Option<String>,
        policy: Option<String>,
    },
    ListAllPackages(usize),
    ListSymbolsInPackage {
        package: String,
        vars: bool,
        macros: bool,
        functions: bool,
        classes: bool,
        cont: usize,
    },
    DescribeForSymbolInfo { symbol: String, cont: usize },
    AproposForSymbolInfo { symbol: String, cont: usize },
}

/// A position in an editor buffer: character offset, line and column.
#[derive(Debug, Clone)]
pub struct EditorPosition {
    pub pos: usize,
    pub line: usize,
    pub col: usize,
}

/// What to do when the reply for a continuation arrives.
#[derive(Debug, Clone)]
pub enum ContinuationCallback {
    PrintReturnValue(PrintKind),
    Print(String, PrintKind),
    LoadFile,
    JumpToDef,
    DisplayPackages(usize),
    DisplaySymbolsInPackage(usize),
    DisplayDescribe(usize),
    DisplayApropos(usize),
}

/// Where a printed reply goes: the REPL console or a notification.
#[derive(Debug, Clone, PartialEq, Eq, Structural)]
pub enum PrintKind {
    Repl,
    Notification,
}

} // verus!
