//! Compilation of kernels: what a launch needs, and the order in which the
//! compiler's objects are made and given back.
//!
//! Two small machines say which call comes next. Whoever drives them makes the
//! call and reports what came of it; the machines keep track of which objects
//! are held, so that each is given back once and none is used after that.

use vstd::prelude::*;

verus! {

/// Passes that run over a module before it is compiled.
pub const PASS_PIPELINE: &'static str = "default<O3>";

/// One block of memory that the units of a cube share.
#[derive(Clone, Copy, Debug, PartialEq, Eq, Structural)]
pub struct SharedMemory {
    /// Size in bytes.
    pub size: usize,
    /// Where its pointer goes in the kernel's table of pointers.
    pub slot: usize,
}

/// The shared memory that a launch has to reserve.
#[derive(Clone, Debug)]
pub struct SharedMemories {
    pub blocks: Vec<SharedMemory>,
}

/// What the host has to provide to launch a kernel, beyond its arguments.
#[derive(Clone, Debug)]
pub struct KernelRequirements {
    /// Whether the kernel synchronizes its cube, in which case each of its
    /// units needs a thread of its own to run on.
    pub needs_parallelism: bool,
    /// The shared memory to reserve for a launch, and where its pointers go.
    pub shared_memories: SharedMemories,
}

impl Default for SharedMemories {
    fn default() -> (r: Self)
        ensures
            r.blocks@.len() == 0,
    {
        SharedMemories { blocks: Vec::new() }
    }
}

impl Default for KernelRequirements {
    fn default() -> (r: Self)
        ensures
            !r.needs_parallelism,
            r.shared_memories.blocks@.len() == 0,
    {
        KernelRequirements { needs_parallelism: false, shared_memories: SharedMemories::default() }
    }
}

/// What a call into the compiler answered.
#[derive(Clone, Copy, Debug, PartialEq, Eq, Structural)]
pub struct Answer {
    /// The call succeeded, or gave a handle that is not null.
    pub ok: bool,
    /// The call left a message that has to be given back.
    pub message: bool,
}

/// Calls that describe the machine that the process runs on.
#[derive(Clone, Copy, Debug, PartialEq, Eq, Structural)]
pub enum HostCall {
    GetTriple,
    GetCpuName,
    GetCpuFeatures,
    /// Looks the triple up; fails, perhaps with a message, where there is no
    /// such target.
    FindTarget,
    /// Creates the target machine. Where the processor's name or its features
    /// are not known, the empty string stands for them.
    CreateMachine { name_known: bool, features_known: bool },
    DisposeError,
    DisposeTriple,
    DisposeCpuName,
    DisposeCpuFeatures,
    /// Nothing is left to do; `machine` says whether there is a target machine.
    Return { machine: bool },
}

/// Strings that [`HostProbe`] holds.
#[derive(Clone, Copy, Debug, PartialEq, Eq, Structural)]
pub enum HostString {
    Triple,
    CpuName,
    CpuFeatures,
    Error,
}

#[derive(Clone, Copy, Debug, PartialEq, Eq, Structural)]
pub enum HostStep {
    Triple,
    CpuName,
    CpuFeatures,
    Find,
    Create,
    FreeError,
    FreeTriple,
    FreeCpuName,
    FreeCpuFeatures,
    Finished,
}

/// Progress of the description of the host.
#[derive(Clone, Copy, Debug)]
pub struct HostProbe {
    pub step: HostStep,
    /// The triple is held.
    pub triple: bool,
    /// The processor's name is held.
    pub name: bool,
    /// The processor's features are held.
    pub features: bool,
    /// An error message is held.
    pub error: bool,
    /// A target machine was created.
    pub machine: bool,
}

impl HostProbe {
    /// The string is held.
    pub open spec fn holds(self, s: HostString) -> bool {
        match s {
            HostString::Triple => self.triple,
            HostString::CpuName => self.name,
            HostString::CpuFeatures => self.features,
            HostString::Error => self.error,
        }
    }

    /// What is held fits the step.
    pub open spec fn wf(self) -> bool {
        match self.step {
            HostStep::Triple => !self.triple && !self.name && !self.features && !self.error
                && !self.machine,
            HostStep::CpuName => self.triple && !self.name && !self.features && !self.error
                && !self.machine,
            HostStep::CpuFeatures => self.triple && !self.features && !self.error && !self.machine,
            HostStep::Find => self.triple && !self.error && !self.machine,
            HostStep::Create => self.triple && !self.error && !self.machine,
            HostStep::FreeError => self.triple && self.error && !self.machine,
            HostStep::FreeTriple => self.triple && !self.error,
            HostStep::FreeCpuName => !self.triple && self.name && !self.error,
            HostStep::FreeCpuFeatures => !self.triple && !self.name && self.features && !self.error,
            HostStep::Finished => !self.triple && !self.name && !self.features && !self.error,
        }
    }

    /// Calls that are left, at most.
    pub open spec fn left(self) -> nat {
        match self.step {
            HostStep::Triple => 9,
            HostStep::CpuName => 8,
            HostStep::CpuFeatures => 7,
            HostStep::Find => 6,
            HostStep::Create => 5,
            HostStep::FreeError => 5,
            HostStep::FreeTriple => 3,
            HostStep::FreeCpuName => 2,
            HostStep::FreeCpuFeatures => 1,
            HostStep::Finished => 0,
        }
    }

    /// The call that comes next.
    pub open spec fn next_call(self) -> HostCall {
        match self.step {
            HostStep::Triple => HostCall::GetTriple,
            HostStep::CpuName => HostCall::GetCpuName,
            HostStep::CpuFeatures => HostCall::GetCpuFeatures,
            HostStep::Find => HostCall::FindTarget,
            HostStep::Create => HostCall::CreateMachine {
                name_known: self.name,
                features_known: self.features,
            },
            HostStep::FreeError => HostCall::DisposeError,
            HostStep::FreeTriple => HostCall::DisposeTriple,
            HostStep::FreeCpuName => HostCall::DisposeCpuName,
            HostStep::FreeCpuFeatures => HostCall::DisposeCpuFeatures,
            HostStep::Finished => HostCall::Return { machine: self.machine },
        }
    }

    /// The step that follows when the call answered `a`: triple, name,
    /// features, target, machine, and then whatever is held is given back.
    pub open spec fn next_step(self, a: Answer) -> HostStep {
        let after_triple = if self.name {
            HostStep::FreeCpuName
        } else if self.features {
            HostStep::FreeCpuFeatures
        } else {
            HostStep::Finished
        };
        match self.step {
            HostStep::Triple => if a.ok {
                HostStep::CpuName
            } else {
                HostStep::Finished
            },
            HostStep::CpuName => HostStep::CpuFeatures,
            HostStep::CpuFeatures => HostStep::Find,
            HostStep::Find => if a.ok {
                HostStep::Create
            } else if a.message {
                HostStep::FreeError
            } else {
                HostStep::FreeTriple
            },
            HostStep::Create => HostStep::FreeTriple,
            HostStep::FreeError => HostStep::FreeTriple,
            HostStep::FreeTriple => after_triple,
            HostStep::FreeCpuName => if self.features {
                HostStep::FreeCpuFeatures
            } else {
                HostStep::Finished
            },
            HostStep::FreeCpuFeatures => HostStep::Finished,
            HostStep::Finished => HostStep::Finished,
        }
    }

    /// Nothing has been asked yet.
    pub fn start() -> (r: Self)
        ensures
            r.wf(),
            r.step is Triple,
    {
        HostProbe {
            step: HostStep::Triple,
            triple: false,
            name: false,
            features: false,
            error: false,
            machine: false,
        }
    }

    /// The call that comes next.
    pub fn call(&self) -> (r: HostCall)
        ensures
            r == self.next_call(),
    {
        match self.step {
            HostStep::Triple => HostCall::GetTriple,
            HostStep::CpuName => HostCall::GetCpuName,
            HostStep::CpuFeatures => HostCall::GetCpuFeatures,
            HostStep::Find => HostCall::FindTarget,
            HostStep::Create => HostCall::CreateMachine {
                name_known: self.name,
                features_known: self.features,
            },
            HostStep::FreeError => HostCall::DisposeError,
            HostStep::FreeTriple => HostCall::DisposeTriple,
            HostStep::FreeCpuName => HostCall::DisposeCpuName,
            HostStep::FreeCpuFeatures => HostCall::DisposeCpuFeatures,
            HostStep::Finished => HostCall::Return { machine: self.machine },
        }
    }

    /// What follows when the call answered `a`.
    ///
    /// A string is held from the call that got it to the call that disposes of
    /// it. Without a triple there is nothing to look up; without a target
    /// there is no machine.
    pub fn after(&self, a: Answer) -> (r: Self)
        requires
            self.wf(),
        ensures
            r.wf(),
            !(self.step is Finished) ==> r.left() < self.left(),
            self.step is Finished ==> r == *self,
            forall|s: HostString|
                #[trigger] r.holds(s) == ((self.holds(s) || host_gets(self.next_call(), a, s))
                    && !host_frees(self.next_call(), s)),
            r.machine == (self.machine || self.step is Create && a.ok),
            r.step == self.next_step(a),
    {
        let mut r: HostProbe = *self;
        match self.step {
            HostStep::Triple => {
                r.triple = a.ok;
                r.step = if a.ok {
                    HostStep::CpuName
                } else {
                    HostStep::Finished
                };
            },
            HostStep::CpuName => {
                r.name = a.ok;
                r.step = HostStep::CpuFeatures;
            },
            HostStep::CpuFeatures => {
                r.features = a.ok;
                r.step = HostStep::Find;
            },
            HostStep::Find => {
                if a.ok {
                    r.step = HostStep::Create;
                } else if a.message {
                    r.error = true;
                    r.step = HostStep::FreeError;
                } else {
                    r.step = HostStep::FreeTriple;
                }
            },
            HostStep::Create => {
                r.machine = a.ok;
                r.step = HostStep::FreeTriple;
            },
            HostStep::FreeError => {
                r.error = false;
                r.step = HostStep::FreeTriple;
            },
            HostStep::FreeTriple => {
                r.triple = false;
                r.step = if r.name {
                    HostStep::FreeCpuName
                } else if r.features {
                    HostStep::FreeCpuFeatures
                } else {
                    HostStep::Finished
                };
            },
            HostStep::FreeCpuName => {
                r.name = false;
                r.step = if r.features {
                    HostStep::FreeCpuFeatures
                } else {
                    HostStep::Finished
                };
            },
            HostStep::FreeCpuFeatures => {
                r.features = false;
                r.step = HostStep::Finished;
            },
            HostStep::Finished => {},
        }
        r
    }
}

/// The call, answered so, gives the string.
pub open spec fn host_gets(call: HostCall, a: Answer, s: HostString) -> bool {
    match s {
        HostString::Triple => call is GetTriple && a.ok,
        HostString::CpuName => call is GetCpuName && a.ok,
        HostString::CpuFeatures => call is GetCpuFeatures && a.ok,
        HostString::Error => call is FindTarget && !a.ok && a.message,
    }
}

/// The call gives the string back.
pub open spec fn host_frees(call: HostCall, s: HostString) -> bool {
    match s {
        HostString::Triple => call is DisposeTriple,
        HostString::CpuName => call is DisposeCpuName,
        HostString::CpuFeatures => call is DisposeCpuFeatures,
        HostString::Error => call is DisposeError,
    }
}

/// The call reads the string.
pub open spec fn host_reads(call: HostCall, s: HostString) -> bool {
    match s {
        HostString::Triple => call is FindTarget || call is CreateMachine,
        HostString::CpuName => call matches HostCall::CreateMachine { name_known, .. }
            && name_known,
        HostString::CpuFeatures => call matches HostCall::CreateMachine { features_known, .. }
            && features_known,
        HostString::Error => false,
    }
}

/// Only what is held is read or given back, nothing that is held is got
/// again, and nothing is held at the end.
pub proof fn law_host_strings_are_freed_once(p: HostProbe, a: Answer, s: HostString)
    requires
        p.wf(),
    ensures
        host_frees(p.next_call(), s) ==> p.holds(s),
        host_reads(p.next_call(), s) ==> p.holds(s),
        host_gets(p.next_call(), a, s) ==> !p.holds(s),
        p.step is Finished ==> !p.holds(s),
{
}

/// Calls that optimize a module.
#[derive(Clone, Copy, Debug, PartialEq, Eq, Structural)]
pub enum PassCall {
    CreateContext,
    /// Copies the text of the module into a buffer.
    CreateBuffer,
    /// Parses the buffer, which it consumes in any case; fails with a message.
    Parse,
    /// Copies the message of the failed parse.
    ReadParseError,
    CreateOptions,
    /// Describes the host, see [`HostProbe`].
    CreateMachine,
    CreateLayout,
    SetLayout,
    DisposeLayout,
    /// Runs the passes, for the target machine if there is one; fails with an
    /// error.
    RunPasses { for_machine: bool },
    DisposeOptions,
    DisposeMachine,
    /// Prints the module to a message.
    Print,
    /// Copies what was printed.
    ReadPrinted,
    /// Turns the error of the passes into a message.
    GetError,
    /// Copies that message.
    ReadError,
    DisposeMessage,
    DisposeErrorMessage,
    DisposeModule,
    DisposeContext,
    Return,
}

/// Objects that [`PassRun`] holds.
#[derive(Clone, Copy, Debug, PartialEq, Eq, Structural)]
pub enum PassObject {
    Context,
    Buffer,
    Module,
    Options,
    Machine,
    Layout,
    Message,
    Error,
}

#[derive(Clone, Copy, Debug, PartialEq, Eq, Structural)]
pub enum PassStep {
    Context,
    Buffer,
    Parse,
    ReadParseError,
    FreeParseError,
    Options,
    Machine,
    Layout,
    SetLayout,
    FreeLayout,
    Run,
    FreeOptions,
    FreeMachine,
    Print,
    ReadPrinted,
    FreePrinted,
    GetError,
    ReadError,
    FreeError,
    FreeModule,
    FreeContext,
    Finished,
}

/// What became of the module.
#[derive(Clone, Copy, Debug, PartialEq, Eq, Structural)]
pub enum PassOutcome {
    /// Nothing has failed.
    Optimized,
    /// The text is no module.
    ParseFailed,
    /// The passes failed.
    PassesFailed,
}

/// Progress of the optimization of a module.
#[derive(Clone, Copy, Debug)]
pub struct PassRun {
    pub step: PassStep,
    /// A target machine is held.
    pub machine: bool,
    pub outcome: PassOutcome,
}

impl PassRun {
    /// The object is held.
    pub open spec fn holds(self, o: PassObject) -> bool {
        let s = self.step;
        match o {
            PassObject::Context => !(s is Context) && !(s is Finished),
            PassObject::Buffer => s is Parse,
            PassObject::Module => self.outcome !is ParseFailed && !(s is Context || s is Buffer
                || s is Parse || s is FreeContext || s is Finished),
            PassObject::Options => s is Machine || s is Layout || s is SetLayout || s is FreeLayout
                || s is Run || s is FreeOptions,
            PassObject::Machine => self.machine,
            PassObject::Layout => s is SetLayout || s is FreeLayout,
            PassObject::Message => s is ReadParseError || s is FreeParseError || s is ReadPrinted
                || s is FreePrinted || s is ReadError || s is FreeError,
            PassObject::Error => self.outcome is PassesFailed && (s is FreeOptions || s is FreeMachine
                || s is GetError),
        }
    }

    /// Machine and outcome fit the step.
    pub open spec fn wf(self) -> bool {
        let s = self.step;
        &&& self.machine ==> s is Layout || s is SetLayout || s is FreeLayout || s is Run
            || s is FreeOptions || s is FreeMachine
        &&& (s is Layout || s is SetLayout || s is FreeLayout || s is FreeMachine) ==> self.machine
        &&& (s is ReadParseError || s is FreeParseError) ==> self.outcome is ParseFailed
        &&& self.outcome is ParseFailed ==> s is ReadParseError || s is FreeParseError
            || s is FreeContext || s is Finished
        &&& (s is GetError || s is ReadError || s is FreeError) ==> self.outcome is PassesFailed
        &&& self.outcome is PassesFailed ==> s is FreeOptions || s is FreeMachine || s is GetError
            || s is ReadError || s is FreeError || s is FreeModule || s is FreeContext
            || s is Finished
    }

    /// Calls that are left, at most.
    pub open spec fn left(self) -> nat {
        match self.step {
            PassStep::Context => 20,
            PassStep::Buffer => 19,
            PassStep::Parse => 18,
            PassStep::ReadParseError => 3,
            PassStep::FreeParseError => 2,
            PassStep::Options => 17,
            PassStep::Machine => 16,
            PassStep::Layout => 15,
            PassStep::SetLayout => 14,
            PassStep::FreeLayout => 13,
            PassStep::Run => 12,
            PassStep::FreeOptions => 11,
            PassStep::FreeMachine => 10,
            PassStep::Print => 9,
            PassStep::ReadPrinted => 8,
            PassStep::FreePrinted => 7,
            PassStep::GetError => 9,
            PassStep::ReadError => 8,
            PassStep::FreeError => 7,
            PassStep::FreeModule => 6,
            PassStep::FreeContext => 1,
            PassStep::Finished => 0,
        }
    }

    /// The call that comes next.
    pub open spec fn next_call(self) -> PassCall {
        match self.step {
            PassStep::Context => PassCall::CreateContext,
            PassStep::Buffer => PassCall::CreateBuffer,
            PassStep::Parse => PassCall::Parse,
            PassStep::ReadParseError => PassCall::ReadParseError,
            PassStep::FreeParseError => PassCall::DisposeMessage,
            PassStep::Options => PassCall::CreateOptions,
            PassStep::Machine => PassCall::CreateMachine,
            PassStep::Layout => PassCall::CreateLayout,
            PassStep::SetLayout => PassCall::SetLayout,
            PassStep::FreeLayout => PassCall::DisposeLayout,
            PassStep::Run => PassCall::RunPasses { for_machine: self.machine },
            PassStep::FreeOptions => PassCall::DisposeOptions,
            PassStep::FreeMachine => PassCall::DisposeMachine,
            PassStep::Print => PassCall::Print,
            PassStep::ReadPrinted => PassCall::ReadPrinted,
            PassStep::FreePrinted => PassCall::DisposeMessage,
            PassStep::GetError => PassCall::GetError,
            PassStep::ReadError => PassCall::ReadError,
            PassStep::FreeError => PassCall::DisposeErrorMessage,
            PassStep::FreeModule => PassCall::DisposeModule,
            PassStep::FreeContext => PassCall::DisposeContext,
            PassStep::Finished => PassCall::Return,
        }
    }

    /// The step that follows when the call answered `a`: parse, describe the
    /// host, lay the module out for it, run the passes, and print the module
    /// or read the error; then give back what is held.
    pub open spec fn next_step(self, a: Answer) -> PassStep {
        let report = if self.outcome is Optimized {
            PassStep::Print
        } else {
            PassStep::GetError
        };
        match self.step {
            PassStep::Context => PassStep::Buffer,
            PassStep::Buffer => PassStep::Parse,
            PassStep::Parse => if a.ok {
                PassStep::Options
            } else {
                PassStep::ReadParseError
            },
            PassStep::ReadParseError => PassStep::FreeParseError,
            PassStep::FreeParseError => PassStep::FreeContext,
            PassStep::Options => PassStep::Machine,
            PassStep::Machine => if a.ok {
                PassStep::Layout
            } else {
                PassStep::Run
            },
            PassStep::Layout => PassStep::SetLayout,
            PassStep::SetLayout => PassStep::FreeLayout,
            PassStep::FreeLayout => PassStep::Run,
            PassStep::Run => PassStep::FreeOptions,
            PassStep::FreeOptions => if self.machine {
                PassStep::FreeMachine
            } else {
                report
            },
            PassStep::FreeMachine => report,
            PassStep::Print => PassStep::ReadPrinted,
            PassStep::ReadPrinted => PassStep::FreePrinted,
            PassStep::FreePrinted => PassStep::FreeModule,
            PassStep::GetError => PassStep::ReadError,
            PassStep::ReadError => PassStep::FreeError,
            PassStep::FreeError => PassStep::FreeModule,
            PassStep::FreeModule => PassStep::FreeContext,
            PassStep::FreeContext => PassStep::Finished,
            PassStep::Finished => PassStep::Finished,
        }
    }

    /// Nothing has been made yet.
    pub fn start() -> (r: Self)
        ensures
            r.wf(),
            r.step is Context,
            r.outcome is Optimized,
    {
        PassRun { step: PassStep::Context, machine: false, outcome: PassOutcome::Optimized }
    }

    /// The call that comes next.
    pub fn call(&self) -> (r: PassCall)
        ensures
            r == self.next_call(),
    {
        match self.step {
            PassStep::Context => PassCall::CreateContext,
            PassStep::Buffer => PassCall::CreateBuffer,
            PassStep::Parse => PassCall::Parse,
            PassStep::ReadParseError => PassCall::ReadParseError,
            PassStep::FreeParseError => PassCall::DisposeMessage,
            PassStep::Options => PassCall::CreateOptions,
            PassStep::Machine => PassCall::CreateMachine,
            PassStep::Layout => PassCall::CreateLayout,
            PassStep::SetLayout => PassCall::SetLayout,
            PassStep::FreeLayout => PassCall::DisposeLayout,
            PassStep::Run => PassCall::RunPasses { for_machine: self.machine },
            PassStep::FreeOptions => PassCall::DisposeOptions,
            PassStep::FreeMachine => PassCall::DisposeMachine,
            PassStep::Print => PassCall::Print,
            PassStep::ReadPrinted => PassCall::ReadPrinted,
            PassStep::FreePrinted => PassCall::DisposeMessage,
            PassStep::GetError => PassCall::GetError,
            PassStep::ReadError => PassCall::ReadError,
            PassStep::FreeError => PassCall::DisposeErrorMessage,
            PassStep::FreeModule => PassCall::DisposeModule,
            PassStep::FreeContext => PassCall::DisposeContext,
            PassStep::Finished => PassCall::Return,
        }
    }

    /// What follows when the call answered `a`.
    ///
    /// A failed parse leaves only the context to give back. Without a target
    /// machine the passes run for no machine in particular. Whether or not
    /// the passes failed, everything that was made is given back.
    pub fn after(&self, a: Answer) -> (r: Self)
        requires
            self.wf(),
        ensures
            r.wf(),
            !(self.step is Finished) ==> r.left() < self.left(),
            self.step is Finished ==> r == *self,
            forall|o: PassObject|
                #[trigger] r.holds(o) == ((self.holds(o) || pass_makes(self.next_call(), a, o))
                    && !pass_frees(self.next_call(), o)),
            r.outcome == (if self.step is Parse && !a.ok {
                PassOutcome::ParseFailed
            } else if self.step is Run && !a.ok {
                PassOutcome::PassesFailed
            } else {
                self.outcome
            }),
            r.step == self.next_step(a),
    {
        let mut r: PassRun = *self;
        match self.step {
            PassStep::Context => {
                r.step = PassStep::Buffer;
            },
            PassStep::Buffer => {
                r.step = PassStep::Parse;
            },
            PassStep::Parse => {
                if a.ok {
                    r.step = PassStep::Options;
                } else {
                    r.outcome = PassOutcome::ParseFailed;
                    r.step = PassStep::ReadParseError;
                }
            },
            PassStep::ReadParseError => {
                r.step = PassStep::FreeParseError;
            },
            PassStep::FreeParseError => {
                r.step = PassStep::FreeContext;
            },
            PassStep::Options => {
                r.step = PassStep::Machine;
            },
            PassStep::Machine => {
                r.machine = a.ok;
                r.step = if a.ok {
                    PassStep::Layout
                } else {
                    PassStep::Run
                };
            },
            PassStep::Layout => {
                r.step = PassStep::SetLayout;
            },
            PassStep::SetLayout => {
                r.step = PassStep::FreeLayout;
            },
            PassStep::FreeLayout => {
                r.step = PassStep::Run;
            },
            PassStep::Run => {
                if !a.ok {
                    r.outcome = PassOutcome::PassesFailed;
                }
                r.step = PassStep::FreeOptions;
            },
            PassStep::FreeOptions => {
                r.step = if r.machine {
                    PassStep::FreeMachine
                } else if matches!(r.outcome, PassOutcome::Optimized) {
                    PassStep::Print
                } else {
                    PassStep::GetError
                };
            },
            PassStep::FreeMachine => {
                r.machine = false;
                r.step = if matches!(r.outcome, PassOutcome::Optimized) {
                    PassStep::Print
                } else {
                    PassStep::GetError
                };
            },
            PassStep::Print => {
                r.step = PassStep::ReadPrinted;
            },
            PassStep::ReadPrinted => {
                r.step = PassStep::FreePrinted;
            },
            PassStep::FreePrinted => {
                r.step = PassStep::FreeModule;
            },
            PassStep::GetError => {
                r.step = PassStep::ReadError;
            },
            PassStep::ReadError => {
                r.step = PassStep::FreeError;
            },
            PassStep::FreeError => {
                r.step = PassStep::FreeModule;
            },
            PassStep::FreeModule => {
                r.step = PassStep::FreeContext;
            },
            PassStep::FreeContext => {
                r.step = PassStep::Finished;
            },
            PassStep::Finished => {},
        }
        r
    }
}

/// The call, answered so, makes the object.
pub open spec fn pass_makes(call: PassCall, a: Answer, o: PassObject) -> bool {
    match o {
        PassObject::Context => call is CreateContext,
        PassObject::Buffer => call is CreateBuffer,
        PassObject::Module => call is Parse && a.ok,
        PassObject::Options => call is CreateOptions,
        PassObject::Machine => call is CreateMachine && a.ok,
        PassObject::Layout => call is CreateLayout,
        PassObject::Message => call is Parse && !a.ok || call is Print || call is GetError,
        PassObject::Error => call is RunPasses && !a.ok,
    }
}

/// The call gives the object back, or consumes it.
pub open spec fn pass_frees(call: PassCall, o: PassObject) -> bool {
    match o {
        PassObject::Context => call is DisposeContext,
        PassObject::Buffer => call is Parse,
        PassObject::Module => call is DisposeModule,
        PassObject::Options => call is DisposeOptions,
        PassObject::Machine => call is DisposeMachine,
        PassObject::Layout => call is DisposeLayout,
        PassObject::Message => call is DisposeMessage || call is DisposeErrorMessage,
        PassObject::Error => call is GetError,
    }
}

/// The call works on the object.
pub open spec fn pass_uses(call: PassCall, o: PassObject) -> bool {
    match o {
        PassObject::Context => call is Parse,
        PassObject::Buffer => false,
        PassObject::Module => call is SetLayout || call is RunPasses || call is Print,
        PassObject::Options => call is RunPasses,
        PassObject::Machine => call is CreateLayout || (call matches PassCall::RunPasses {
            for_machine,
        } && for_machine),
        PassObject::Layout => call is SetLayout,
        PassObject::Message => call is ReadParseError || call is ReadPrinted || call is ReadError,
        PassObject::Error => false,
    }
}

/// Only what is held is used or given back, nothing that is held is made
/// again, and nothing is held at the end, whether the run succeeded or not.
pub proof fn law_pass_objects_are_freed_once(p: PassRun, a: Answer, o: PassObject)
    requires
        p.wf(),
    ensures
        pass_frees(p.next_call(), o) ==> p.holds(o),
        pass_uses(p.next_call(), o) ==> p.holds(o),
        pass_makes(p.next_call(), a, o) ==> !p.holds(o),
        p.step is Finished ==> !p.holds(o),
{
}

/// Which call follows which when the host is described. The triple, the name,
/// the features and the target are asked for in this order; without a triple
/// nothing more is asked, and without a target no machine is made. Whatever
/// was got is given back, the message first, then the triple, the name and the
/// features, and the end tells whether a machine was made.
pub proof fn law_host_order(p: HostProbe, a: Answer, q: HostProbe, c: HostCall, d: HostCall)
    requires
        p.wf(),
        call_ensures(HostProbe::call, (&p,), c),
        call_ensures(HostProbe::after, (&p, a), q),
        call_ensures(HostProbe::call, (&q,), d),
    ensures
        c is GetTriple ==> d == (if a.ok {
            HostCall::GetCpuName
        } else {
            HostCall::Return { machine: false }
        }),
        c is GetCpuName ==> d is GetCpuFeatures && q.name == a.ok,
        c is GetCpuFeatures ==> d is FindTarget && q.features == a.ok,
        c is FindTarget && a.ok ==> d == (HostCall::CreateMachine {
            name_known: p.name,
            features_known: p.features,
        }),
        c is FindTarget && !a.ok && a.message ==> d is DisposeError,
        c is FindTarget && !a.ok && !a.message ==> d is DisposeTriple,
        c is DisposeError ==> d is DisposeTriple,
        c is CreateMachine ==> d is DisposeTriple && q.machine == a.ok,
        !(c is CreateMachine) ==> q.machine == p.machine,
        c is DisposeTriple && p.name ==> d is DisposeCpuName,
        c is DisposeTriple && !p.name && p.features ==> d is DisposeCpuFeatures,
        c is DisposeTriple && !p.name && !p.features ==> d == (HostCall::Return {
            machine: p.machine,
        }),
        c is DisposeCpuName && p.features ==> d is DisposeCpuFeatures,
        c is DisposeCpuName && !p.features ==> d == (HostCall::Return { machine: p.machine }),
        c is DisposeCpuFeatures ==> d == (HostCall::Return { machine: p.machine }),
        c is Return ==> d == c,
        !(c is GetTriple) && !(c is DisposeTriple) ==> q.triple == p.triple,
        !(c is GetCpuName) && !(c is DisposeCpuName) ==> q.name == p.name,
        !(c is GetCpuFeatures) && !(c is DisposeCpuFeatures) ==> q.features == p.features,
{
    assert(q.holds(HostString::Triple) == q.triple && p.holds(HostString::Triple) == p.triple);
    assert(q.holds(HostString::CpuName) == q.name && p.holds(HostString::CpuName) == p.name);
    assert(q.holds(HostString::CpuFeatures) == q.features && p.holds(HostString::CpuFeatures)
        == p.features);
}

/// The description of the host begins with the triple and with nothing held.
pub proof fn law_host_start(p: HostProbe, c: HostCall)
    requires
        call_ensures(HostProbe::start, (), p),
        call_ensures(HostProbe::call, (&p,), c),
    ensures
        c is GetTriple,
        !p.triple && !p.name && !p.features && !p.error && !p.machine,
{
}

/// Which call follows which when a module is optimized. A machine that was
/// made has its layout made, set on the module and given back before the
/// passes run for it; without one they run for none. The module is printed
/// where nothing failed, and the error is read where the passes failed.
pub proof fn law_pass_order(p: PassRun, a: Answer, q: PassRun, c: PassCall, d: PassCall)
    requires
        p.wf(),
        call_ensures(PassRun::call, (&p,), c),
        call_ensures(PassRun::after, (&p, a), q),
        call_ensures(PassRun::call, (&q,), d),
    ensures
        c is CreateContext ==> d is CreateBuffer,
        c is CreateBuffer ==> d is Parse,
        c is Parse && a.ok ==> d is CreateOptions,
        c is Parse && !a.ok ==> d is ReadParseError && q.outcome is ParseFailed,
        c is ReadParseError ==> d is DisposeMessage,
        c is CreateOptions ==> d is CreateMachine,
        c is CreateMachine && a.ok ==> d is CreateLayout && q.machine,
        c is CreateMachine && !a.ok ==> d == (PassCall::RunPasses { for_machine: false }),
        c is CreateLayout ==> d is SetLayout,
        c is SetLayout ==> d is DisposeLayout,
        c is DisposeLayout ==> d == (PassCall::RunPasses { for_machine: true }),
        c is RunPasses ==> d is DisposeOptions && q.machine == p.machine,
        c is RunPasses && !a.ok ==> q.outcome is PassesFailed,
        c is RunPasses && a.ok ==> q.outcome is Optimized,
        c is DisposeOptions && p.machine ==> d is DisposeMachine,
        c is DisposeOptions && !p.machine || c is DisposeMachine ==> (if p.outcome is Optimized {
            d is Print
        } else {
            d is GetError
        }),
        c is Print ==> d is ReadPrinted,
        c is ReadPrinted ==> d is DisposeMessage,
        c is DisposeMessage ==> (if p.outcome is ParseFailed {
            d is DisposeContext
        } else {
            d is DisposeModule
        }),
        c is GetError ==> d is ReadError,
        c is ReadError ==> d is DisposeErrorMessage,
        c is DisposeErrorMessage ==> d is DisposeModule,
        c is DisposeModule ==> d is DisposeContext,
        c is DisposeContext ==> d is Return,
        c is Return ==> d is Return,
        !(c is Parse) && !(c is RunPasses) ==> q.outcome == p.outcome,
{
    assert(q.holds(PassObject::Machine) == q.machine && p.holds(PassObject::Machine) == p.machine);
}

/// The optimization of a module begins with its context, and nothing has
/// failed then.
pub proof fn law_pass_start(p: PassRun, c: PassCall)
    requires
        call_ensures(PassRun::start, (), p),
        call_ensures(PassRun::call, (&p,), c),
    ensures
        c is CreateContext,
        !p.machine && p.outcome is Optimized,
{
}

/// A kernel that says nothing needs neither threads of its own nor shared
/// memory.
pub proof fn law_default_requirements(r: KernelRequirements)
    requires
        call_ensures(<KernelRequirements as Default>::default, (), r),
    ensures
        !r.needs_parallelism,
        r.shared_memories.blocks@ == Seq::<SharedMemory>::empty(),
{
}

} // verus!
