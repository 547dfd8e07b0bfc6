//! The decisions of the toolbox window: what each message does to the
//! window's state, and which dialog or task it asks for. Only one task runs
//! at a time.

use vstd::prelude::*;
use vstd::string::*;

verus! {

/// What the mixins tool grafts: the donor's growl samples, or its
/// stationary samples of one phoneme made into growls.
#[derive(Debug, Clone, Copy, PartialEq, Eq, Structural)]
pub enum MixinsMode {
    Vqm,
    Sta2Vqm,
}

impl Default for MixinsMode {
    fn default() -> (m: MixinsMode)
        ensures
            m == MixinsMode::Vqm,
    {
        MixinsMode::Vqm
    }
}

/// What the window reports.
#[derive(Debug)]
pub enum Message {
    BrowseDdi,
    BrowseDdb,
    BrowseOutDir,
    BrowseTree,
    BrowsePackOut,
    BrowseSrcDdi,
    BrowseMixDdi,
    BrowseMixOut,
    RunExtractWav,
    RunExtractDdi,
    RunExtractFrm2,
    RunPack,
    RunMixins,
    TaskCompleted(Result<(), String>),
    ToggleGenLab(bool),
    ToggleGenSeg(bool),
    ToggleClassify(bool),
    ToggleSaveTemp(bool),
    ToggleCatOnly(bool),
}

/// The state of the window: the paths chosen, the options, the mixins
/// mode, and whether a task is running.
pub struct AppState {
    pub ddi_file: String,
    pub ddb_file: String,
    pub out_dir: String,
    pub tree_path: String,
    pub pack_out: String,
    pub src_ddi: String,
    pub mix_ddi: String,
    pub mix_out: String,
    pub gen_lab: bool,
    pub gen_seg: bool,
    pub classify: bool,
    pub save_temp: bool,
    pub cat_only: bool,
    pub mix_mode: MixinsMode,
    pub is_busy: bool,
}

/// A path field of the window.
#[derive(Debug, Clone, Copy, PartialEq, Eq, Structural)]
pub enum PathField {
    DdiFile,
    DdbFile,
    OutDir,
    TreePath,
    PackOut,
    SrcDdi,
    MixDdi,
    MixOut,
}

/// The kind of file a file dialog offers.
#[derive(Debug, Clone, Copy, PartialEq, Eq, Structural)]
pub enum FileKind {
    Ddi,
    Ddb,
    Tree,
}

/// A task the window starts, with the values it was started with.
#[derive(Debug, Clone)]
pub enum Job {
    ExtractWav { ddi: String, out: String, gen_lab: bool, gen_seg: bool, classify: bool },
    ExtractDdi { ddi: String, out: String, save_temp: bool, cat_only: bool },
    ExtractFrm2 { ddb: String, out: String },
    Pack { tree: String, out: String },
    Mixins { src: String, mix: String, out: String, mode: MixinsMode },
}

/// What the window asks of its surroundings after a message.
#[derive(Debug)]
pub enum Command {
    Nothing,
    /// Ask for a file of `kind` and put its path (empty if none) in `target`.
    PickFile { target: PathField, kind: FileKind },
    /// Ask for a folder and put its path (empty if none) in `target`.
    PickFolder { target: PathField },
    /// Start the task; its end is reported with `TaskCompleted`.
    Run(Job),
    /// Tell how a task ended.
    Report(Result<(), String>),
}

/// Whether a message asks to start a task.
pub open spec fn is_run(m: Message) -> bool {
    ||| m is RunExtractWav
    ||| m is RunExtractDdi
    ||| m is RunExtractFrm2
    ||| m is RunPack
    ||| m is RunMixins
}

/// The task a run message starts from the state `s`.
pub open spec fn job_for(s: AppState, m: Message) -> Job {
    match m {
        Message::RunExtractWav => Job::ExtractWav {
            ddi: s.ddi_file,
            out: s.out_dir,
            gen_lab: s.gen_lab,
            gen_seg: s.gen_seg,
            classify: s.classify,
        },
        Message::RunExtractDdi => Job::ExtractDdi {
            ddi: s.ddi_file,
            out: s.out_dir,
            save_temp: s.save_temp,
            cat_only: s.cat_only,
        },
        Message::RunExtractFrm2 => Job::ExtractFrm2 { ddb: s.ddb_file, out: s.out_dir },
        Message::RunPack => Job::Pack { tree: s.tree_path, out: s.pack_out },
        _ => Job::Mixins { src: s.src_ddi, mix: s.mix_ddi, out: s.mix_out, mode: s.mix_mode },
    }
}

/// What a message does: a toggle sets its option; a browse message asks
/// for a path; a run message, unless a task is running, marks the window
/// busy and starts its task (while one runs it does nothing); the end of a
/// task clears the mark and is reported.
pub open spec fn update_spec(s: AppState, m: Message) -> (AppState, Command) {
    match m {
        Message::ToggleGenLab(v) => (AppState { gen_lab: v, ..s }, Command::Nothing),
        Message::ToggleGenSeg(v) => (AppState { gen_seg: v, ..s }, Command::Nothing),
        Message::ToggleClassify(v) => (AppState { classify: v, ..s }, Command::Nothing),
        Message::ToggleSaveTemp(v) => (AppState { save_temp: v, ..s }, Command::Nothing),
        Message::ToggleCatOnly(v) => (AppState { cat_only: v, ..s }, Command::Nothing),
        Message::BrowseDdi => (s, Command::PickFile { target: PathField::DdiFile, kind: FileKind::Ddi }),
        Message::BrowseDdb => (s, Command::PickFile { target: PathField::DdbFile, kind: FileKind::Ddb }),
        Message::BrowseOutDir => (s, Command::PickFolder { target: PathField::OutDir }),
        Message::BrowseTree => (s, Command::PickFile { target: PathField::TreePath, kind: FileKind::Tree }),
        Message::BrowsePackOut => (s, Command::PickFolder { target: PathField::PackOut }),
        Message::BrowseSrcDdi => (s, Command::PickFile { target: PathField::SrcDdi, kind: FileKind::Ddi }),
        Message::BrowseMixDdi => (s, Command::PickFile { target: PathField::MixDdi, kind: FileKind::Ddi }),
        Message::BrowseMixOut => (s, Command::PickFolder { target: PathField::MixOut }),
        Message::TaskCompleted(res) => (AppState { is_busy: false, ..s }, Command::Report(res)),
        _ => if s.is_busy {
            (s, Command::Nothing)
        } else {
            (AppState { is_busy: true, ..s }, Command::Run(job_for(s, m)))
        },
    }
}

/// The state with the path field `f` set to `v`.
pub open spec fn with_path(s: AppState, f: PathField, v: String) -> AppState {
    match f {
        PathField::DdiFile => AppState { ddi_file: v, ..s },
        PathField::DdbFile => AppState { ddb_file: v, ..s },
        PathField::OutDir => AppState { out_dir: v, ..s },
        PathField::TreePath => AppState { tree_path: v, ..s },
        PathField::PackOut => AppState { pack_out: v, ..s },
        PathField::SrcDdi => AppState { src_ddi: v, ..s },
        PathField::MixDdi => AppState { mix_ddi: v, ..s },
        PathField::MixOut => AppState { mix_out: v, ..s },
    }
}

impl Default for AppState {
    fn default() -> (s: AppState)
        ensures
            s.ddi_file@ == Seq::<char>::empty(),
            s.ddb_file@ == Seq::<char>::empty(),
            s.out_dir@ == Seq::<char>::empty(),
            s.tree_path@ == Seq::<char>::empty(),
            s.pack_out@ == Seq::<char>::empty(),
            s.src_ddi@ == Seq::<char>::empty(),
            s.mix_ddi@ == Seq::<char>::empty(),
            s.mix_out@ == Seq::<char>::empty(),
            !s.gen_lab && !s.gen_seg && !s.classify && !s.save_temp && !s.cat_only,
            s.mix_mode == MixinsMode::Vqm,
            !s.is_busy,
    {
        AppState {
            ddi_file: String::new(),
            ddb_file: String::new(),
            out_dir: String::new(),
            tree_path: String::new(),
            pack_out: String::new(),
            src_ddi: String::new(),
            mix_ddi: String::new(),
            mix_out: String::new(),
            gen_lab: false,
            gen_seg: false,
            classify: false,
            save_temp: false,
            cat_only: false,
            mix_mode: MixinsMode::Vqm,
            is_busy: false,
        }
    }
}

impl AppState {
    fn start(&mut self, m: Message) -> (c: Command)
        requires
            is_run(m),
        ensures
            (*final(self), c) == update_spec(*old(self), m),
    {
        if self.is_busy {
            return Command::Nothing;
        }
        self.is_busy = true;
        let job = match m {
            Message::RunExtractWav => Job::ExtractWav {
                ddi: self.ddi_file.clone(),
                out: self.out_dir.clone(),
                gen_lab: self.gen_lab,
                gen_seg: self.gen_seg,
                classify: self.classify,
            },
            Message::RunExtractDdi => Job::ExtractDdi {
                ddi: self.ddi_file.clone(),
                out: self.out_dir.clone(),
                save_temp: self.save_temp,
                cat_only: self.cat_only,
            },
            Message::RunExtractFrm2 => Job::ExtractFrm2 { ddb: self.ddb_file.clone(), out: self.out_dir.clone() },
            Message::RunPack => Job::Pack { tree: self.tree_path.clone(), out: self.pack_out.clone() },
            _ => Job::Mixins {
                src: self.src_ddi.clone(),
                mix: self.mix_ddi.clone(),
                out: self.mix_out.clone(),
                mode: self.mix_mode,
            },
        };
        Command::Run(job)
    }

    /// Handles a message (see `update_spec`).
    pub fn update(&mut self, message: Message) -> (c: Command)
        ensures
            (*final(self), c) == update_spec(*old(self), message),
    {
        match message {
            Message::ToggleGenLab(value) => {
                self.gen_lab = value;
                Command::Nothing
            },
            Message::ToggleGenSeg(value) => {
                self.gen_seg = value;
                Command::Nothing
            },
            Message::ToggleClassify(value) => {
                self.classify = value;
                Command::Nothing
            },
            Message::ToggleSaveTemp(value) => {
                self.save_temp = value;
                Command::Nothing
            },
            Message::ToggleCatOnly(value) => {
                self.cat_only = value;
                Command::Nothing
            },
            Message::BrowseDdi => Command::PickFile { target: PathField::DdiFile, kind: FileKind::Ddi },
            Message::BrowseDdb => Command::PickFile { target: PathField::DdbFile, kind: FileKind::Ddb },
            Message::BrowseOutDir => Command::PickFolder { target: PathField::OutDir },
            Message::BrowseTree => Command::PickFile { target: PathField::TreePath, kind: FileKind::Tree },
            Message::BrowsePackOut => Command::PickFolder { target: PathField::PackOut },
            Message::BrowseSrcDdi => Command::PickFile { target: PathField::SrcDdi, kind: FileKind::Ddi },
            Message::BrowseMixDdi => Command::PickFile { target: PathField::MixDdi, kind: FileKind::Ddi },
            Message::BrowseMixOut => Command::PickFolder { target: PathField::MixOut },
            Message::TaskCompleted(res) => {
                self.is_busy = false;
                Command::Report(res)
            },
            Message::RunExtractWav => self.start(Message::RunExtractWav),
            Message::RunExtractDdi => self.start(Message::RunExtractDdi),
            Message::RunExtractFrm2 => self.start(Message::RunExtractFrm2),
            Message::RunPack => self.start(Message::RunPack),
            Message::RunMixins => self.start(Message::RunMixins),
        }
    }

    /// Puts a path chosen in a dialog (empty if none was) in its field.
    pub fn set_path(&mut self, field: PathField, value: String)
        ensures
            *final(self) == with_path(*old(self), field, value),
    {
        match field {
            PathField::DdiFile => self.ddi_file = value,
            PathField::DdbFile => self.ddb_file = value,
            PathField::OutDir => self.out_dir = value,
            PathField::TreePath => self.tree_path = value,
            PathField::PackOut => self.pack_out = value,
            PathField::SrcDdi => self.src_ddi = value,
            PathField::MixDdi => self.mix_ddi = value,
            PathField::MixOut => self.mix_out = value,
        }
    }
}

/// The phoneme whose stationary samples the mixins tool makes into growls.
pub fn growl_phoneme() -> (s: &'static str)
    ensures
        s@ == seq!['G', 'r', 'w'],
{
    let s = "Grw";
    proof {
        reveal_strlit("Grw");
    }
    s
}

/// While a task runs, a request to start another changes nothing and
/// starts nothing.
pub proof fn lemma_busy_refuses(s: AppState, m: Message)
    requires
        s.is_busy,
        is_run(m),
    ensures
        update_spec(s, m) == (s, Command::Nothing),
{
}

/// With no task running, a request to start one marks the window busy,
/// changes nothing else, and starts the task with the state's values.
pub proof fn lemma_idle_starts(s: AppState, m: Message)
    requires
        !s.is_busy,
        is_run(m),
    ensures
        update_spec(s, m) == (AppState { is_busy: true, ..s }, Command::Run(job_for(s, m))),
{
}

/// The end of a task always leaves the window idle and reports the
/// outcome; no other message changes whether a task is running except a
/// run request on an idle window.
pub proof fn lemma_busy_flag(s: AppState, m: Message)
    ensures
        m is TaskCompleted ==> !update_spec(s, m).0.is_busy && update_spec(s, m).1 == Command::Report(m->TaskCompleted_0),
        !(m is TaskCompleted) && !is_run(m) ==> update_spec(s, m).0.is_busy == s.is_busy,
{
}

/// Choosing a path changes only its field, and nothing about running
/// tasks.
pub proof fn lemma_set_path_only(s: AppState, f: PathField, v: String)
    ensures
        with_path(s, f, v).is_busy == s.is_busy,
        with_path(s, f, v).gen_lab == s.gen_lab,
        with_path(s, f, v).mix_mode == s.mix_mode,
        f == PathField::DdiFile ==> with_path(s, f, v).ddi_file == v,
        f == PathField::OutDir ==> with_path(s, f, v).out_dir == v,
{
}

} // verus!
