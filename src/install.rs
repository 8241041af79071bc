use crate::plan::PlanOptions;
use crate::schedule::InstallReport;
use vstd::prelude::*;

verus! {

/// Parallelism ceiling used when a cask installs the casks it depends on.
pub const CASK_CHILD_PARALLELISM: usize = 2;

/// Concurrency ceiling used when none is given.
pub const DEFAULT_MAX_CONCURRENT: usize = 4;

/// Options of an install request.
pub struct Install {
    pub names: Vec<String>,
    /// Accepted and ignored: dependencies are always processed.
    pub skip_deps: bool,
    pub cask: bool,
    pub include_optional: bool,
    pub skip_recommended: bool,
    pub max_concurrent_installs: usize,
}

/// Errors reported by the resolver.
pub enum ResolveError {
    /// No formula of this name exists.
    NotFound(String),
    Other(String),
}

/// Kinds of run-level failure.
#[derive(Clone, Copy, Debug, PartialEq, Eq, Structural)]
pub enum ErrKind {
    ResolveError,
    PlanInconsistent,
    FetchError,
    InstallError,
    Stalled,
    InternalInvariant,
}

/// Process exit status of a run that ended with this error kind.
pub open spec fn exit_code_of(kind: ErrKind) -> i32 {
    match kind {
        ErrKind::ResolveError => 2,
        ErrKind::FetchError => 3,
        ErrKind::InstallError => 4,
        ErrKind::Stalled => 5,
        ErrKind::PlanInconsistent => 6,
        ErrKind::InternalInvariant => 6,
    }
}

pub fn exit_code(kind: ErrKind) -> (r: i32)
    ensures
        r == exit_code_of(kind),
{
    match kind {
        ErrKind::ResolveError => 2,
        ErrKind::FetchError => 3,
        ErrKind::InstallError => 4,
        ErrKind::Stalled => 5,
        ErrKind::PlanInconsistent => 6,
        ErrKind::InternalInvariant => 6,
    }
}

/// The resolver reported every one of `names`, and there is at least one,
/// as the formula it could not find.
pub open spec fn reports_all_missing(err: ResolveError, names: Seq<String>) -> bool {
    match err {
        ResolveError::NotFound(name) => names.len() > 0 && forall|i: int|
            0 <= i < names.len() ==> (#[trigger] names[i])@ == name@,
        ResolveError::Other(_) => false,
    }
}

/// One step of installing a single cask, in the order they are taken.
pub enum CaskStep {
    /// Install these formulae through the formula scheduler, default options.
    InstallFormulae(Vec<String>),
    /// Install these casks with the given parallelism ceiling.
    InstallCasks(Vec<String>, usize),
    /// Probe whether the cask is present, then take `install_step`.
    InstallUnlessPresent,
    /// The cask is present already: nothing more to do.
    Skip,
    /// Download the cask payload, then install it.
    DownloadAndInstall,
}

impl Install {
    /// Edge-filtering options of this request.
    pub fn plan_options(&self) -> (r: PlanOptions)
        ensures
            r.include_optional == self.include_optional,
            r.skip_recommended == self.skip_recommended,
    {
        PlanOptions { include_optional: self.include_optional, skip_recommended: self.skip_recommended }
    }

    /// Whether a failed formula resolution is retried as a cask install:
    /// only when casks were not asked for explicitly and the resolver
    /// reported every requested name as not found.
    pub fn falls_back_to_cask(&self, err: &ResolveError) -> (r: bool)
        ensures
            r == (!self.cask && reports_all_missing(*err, self.names@)),
    {
        if self.cask || self.names.len() == 0 {
            return false;
        }
        match err {
            ResolveError::NotFound(name) => {
                let mut i: usize = 0;
                while i < self.names.len()
                    invariant
                        i <= self.names@.len(),
                        !self.cask,
                        self.names@.len() > 0,
                        *err == ResolveError::NotFound(*name),
                        forall|j: int| 0 <= j < i ==> (#[trigger] self.names@[j])@ == name@,
                    decreases self.names@.len() - i,
                {
                    if self.names[i] != *name {
                        proof {
                            assert(self.names@[i as int]@ != name@);
                        }
                        return false;
                    }
                    i = i + 1;
                }
                true
            },
            ResolveError::Other(_) => false,
        }
    }

    /// Options used to install the formula dependencies of a cask.
    pub fn for_cask_formulae(names: Vec<String>) -> (r: Install)
        ensures
            r.names == names,
            !r.skip_deps && !r.cask && !r.include_optional && !r.skip_recommended,
            r.max_concurrent_installs == DEFAULT_MAX_CONCURRENT,
    {
        Install {
            names,
            skip_deps: false,
            cask: false,
            include_optional: false,
            skip_recommended: false,
            max_concurrent_installs: DEFAULT_MAX_CONCURRENT,
        }
    }
}

/// Steps that install one cask: its formula dependencies first, then its
/// cask dependencies at reduced parallelism, then the cask itself. A step
/// that fails aborts the ones after it.
pub fn cask_steps(formula_deps: Vec<String>, cask_deps: Vec<String>) -> (r: Vec<CaskStep>)
    ensures
        ({
            let f = if formula_deps@.len() > 0 { 1int } else { 0int };
            let c = if cask_deps@.len() > 0 { 1int } else { 0int };
            &&& r@.len() == f + c + 1
            &&& formula_deps@.len() > 0 ==> r@[0] == CaskStep::InstallFormulae(formula_deps)
            &&& cask_deps@.len() > 0 ==> r@[f] == CaskStep::InstallCasks(cask_deps, CASK_CHILD_PARALLELISM)
            &&& r@[f + c] == CaskStep::InstallUnlessPresent
        }),
{
    let mut steps: Vec<CaskStep> = Vec::new();
    if formula_deps.len() > 0 {
        steps.push(CaskStep::InstallFormulae(formula_deps));
    }
    if cask_deps.len() > 0 {
        steps.push(CaskStep::InstallCasks(cask_deps, CASK_CHILD_PARALLELISM));
    }
    steps.push(CaskStep::InstallUnlessPresent);
    steps
}

/// What to do once the presence probe has answered.
pub fn install_step(installed: bool) -> (r: CaskStep)
    ensures
        r == if installed { CaskStep::Skip } else { CaskStep::DownloadAndInstall },
{
    if installed {
        CaskStep::Skip
    } else {
        CaskStep::DownloadAndInstall
    }
}

/// Final result of a formula run: success exactly when no node failed;
/// otherwise the kind of the first task that failed on its own.
pub fn run_result(report: &InstallReport) -> (r: Result<(), ErrKind>)
    ensures
        r is Ok <==> report.failed@.len() == 0,
        r is Err ==> r == Err::<(), ErrKind>(match report.first_failure {
            Some(k) => k,
            None => ErrKind::InstallError,
        }),
{
    if report.failed.len() == 0 {
        Ok(())
    } else {
        match report.first_failure {
            Some(k) => Err(k),
            None => Err(ErrKind::InstallError),
        }
    }
}

/// Final result of a batch of cask installs, given each cask's result:
/// success when all succeeded, else the error of the first that failed.
pub fn cask_batch_result(outcomes: &Vec<Result<(), ErrKind>>) -> (r: Result<(), ErrKind>)
    ensures
        r is Ok <==> forall|i: int| 0 <= i < outcomes@.len() ==> (#[trigger] outcomes@[i]) is Ok,
        r is Err ==> exists|j: int|
            0 <= j < outcomes@.len() && r == #[trigger] outcomes@[j] && forall|i: int|
                0 <= i < j ==> (#[trigger] outcomes@[i]) is Ok,
{
    let mut i: usize = 0;
    while i < outcomes.len()
        invariant
            i <= outcomes@.len(),
            forall|j: int| 0 <= j < i ==> (#[trigger] outcomes@[j]) is Ok,
        decreases outcomes@.len() - i,
    {
        match outcomes[i] {
            Ok(()) => {},
            Err(k) => {
                proof {
                    assert(outcomes@[i as int] == Err::<(), ErrKind>(k));
                }
                return Err(k);
            },
        }
        i = i + 1;
    }
    Ok(())
}

} // verus!
