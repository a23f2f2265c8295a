use vstd::prelude::*;
use normpath::PathExt;
use crate::compile::{is_source, lemma_pass_prefix, outcome_view, pass_over, pass_upto, CompilePass, Outcome, SourceEntry};
use crate::output::{outputs_of, plan_of, plan_outputs, OutputFile};
use crate::naming::{join_path, output_path, parent_and_name, split_dir, trim_separators};

verus! {

#[verifier::external_type_specification]
#[verifier::external_body]
pub struct ExFormat(rsass::output::Format);

/// The stylesheet compiler that turns one source file into text.
#[derive(Clone, Copy, Debug)]
#[non_exhaustive]
pub enum SassBackend {
    /// The in-process rsass compiler, with its output format.
    RSass(rsass::output::Format),
    /// The `sass` executable, run once per file.
    DartSass,
}

/// Relies on normpath's `PathExt::normalize` (on Unix, `fs::canonicalize`):
/// the path made absolute and resolved, or the error that stopped it. It
/// rejects an empty path. A result that is not valid text is an error here.
/// Beyond that the result depends on the file system.
#[verifier::external_body]
fn normalize_dir(path: &str) -> (r: Result<String, String>)
    ensures
        path@.len() == 0 ==> r is Err,
{
    match std::path::Path::new(path).normalize() {
        Ok(dir) => dir.into_path_buf().into_os_string().into_string().map_err(
            |p| format!("not valid UTF-8: {}", p.to_string_lossy()),
        ),
        Err(e) => Err(e.to_string()),
    }
}

/// The normalized output directory `css_dir`, given what normalizing it
/// gave (`direct`) and, where that failed, what normalizing its parent gave
/// (`parent`). An output directory that does not exist yet is its
/// normalized parent joined with its last component; where that cannot be
/// had, the error is the one of `direct`.
pub fn settle_output_dir(
    css_dir: &str,
    direct: Result<String, String>,
    parent: Result<String, String>,
) -> (r: Result<String, String>)
    ensures
        direct is Ok ==> r == direct,
        direct is Err && split_dir(css_dir@) is Some && parent is Ok ==> r is Ok && r->Ok_0@
            == join_path(parent->Ok_0@, split_dir(css_dir@)->Some_0.1),
        direct is Err && (split_dir(css_dir@) is None || parent is Err) ==> r == direct,
{
    match direct {
        Ok(dir) => Ok(dir),
        Err(cause) => match parent_and_name(css_dir) {
            Some((_, name)) => match parent {
                Ok(p) => Ok(output_path(p.as_str(), name.as_str())),
                Err(_) => Err(cause),
            },
            None => Err(cause),
        },
    }
}

/// Normalizes the output directory, which need not exist yet: where it does
/// not, its parent is normalized and its last component joined on.
fn resolve_output_dir(css_dir: &str) -> (r: Result<String, String>)
    ensures
        css_dir@.len() == 0 ==> r is Err,
{
    let direct = normalize_dir(css_dir);
    if direct.is_ok() {
        return direct;
    }
    let parent = match parent_and_name(css_dir) {
        Some((p, _)) => normalize_dir(p.as_str()),
        None => Err(String::new()),
    };
    proof {
        if css_dir@.len() == 0 {
            assert(trim_separators(css_dir@) =~= css_dir@);
            assert(split_dir(css_dir@) is None);
        }
    }
    settle_output_dir(css_dir, direct, parent)
}

/// `o` is what `compile` returned for `path`.
pub open spec fn compiled_by<F: Fn(String) -> Result<String, String>>(
    compile: F,
    path: String,
    o: Outcome,
) -> bool {
    exists|res: Result<String, String>| compile.ensures((path,), res) && outcome_view(res) == o
}

/// Each source entry that a pass reached before any failure has as its
/// outcome what `compile` returned for the entry's path.
pub open spec fn compiled_by_each<F: Fn(String) -> Result<String, String>>(
    compile: F,
    entries: Seq<SourceEntry>,
    outs: Seq<Outcome>,
) -> bool {
    forall|k: int|
        0 <= k < entries.len() && is_source(entries[k]) && (#[trigger] pass_upto(
            entries,
            outs,
            k,
        )).1 is None ==> compiled_by(compile, entries[k].path, outs[k])
}

/// Which of the two configured directories a configuration error is about.
#[derive(Clone, Copy, Debug, PartialEq, Eq)]
pub enum DirRole {
    Sass,
    Css,
}

/// A configured directory that could not be normalized: which one, the path
/// as given, and why.
#[derive(Debug, PartialEq, Eq)]
pub struct ConfigError {
    pub role: DirRole,
    pub path: String,
    pub cause: String,
}

/// The validated pair of directories: sources are read from `sass_dir`,
/// compiled files are written into `css_dir`.
pub struct Context {
    pub sass_dir: String,
    pub css_dir: String,
    pub backend: SassBackend,
}

impl Context {
    /// The context for the directories `sass_dir` and `css_dir`, given what
    /// normalizing each of them gave. The source directory is judged first.
    pub fn from_normalized(
        sass_dir: &str,
        css_dir: &str,
        sass: Result<String, String>,
        css: Result<String, String>,
        backend: SassBackend,
    ) -> (r: Result<Context, ConfigError>)
        ensures
            sass is Err ==> r is Err && r->Err_0.role == DirRole::Sass && r->Err_0.path@
                == sass_dir@ && r->Err_0.cause == sass->Err_0,
            sass is Ok && css is Err ==> r is Err && r->Err_0.role == DirRole::Css
                && r->Err_0.path@ == css_dir@ && r->Err_0.cause == css->Err_0,
            sass is Ok && css is Ok ==> r is Ok && r->Ok_0.sass_dir == sass->Ok_0
                && r->Ok_0.css_dir == css->Ok_0 && r->Ok_0.backend == backend,
    {
        match sass {
            Err(cause) => Err(ConfigError { role: DirRole::Sass, path: String::from_str(sass_dir), cause }),
            Ok(sass_dir_norm) => match css {
                Err(cause) => Err(
                    ConfigError { role: DirRole::Css, path: String::from_str(css_dir), cause },
                ),
                Ok(css_dir_norm) => Ok(
                    Context { sass_dir: sass_dir_norm, css_dir: css_dir_norm, backend },
                ),
            },
        }
    }

    /// Normalizes both directories and builds the context. Fails with the
    /// first directory that cannot be normalized; the output directory is
    /// only tried once the source directory passed, and need not exist.
    pub fn initialize(sass_dir: &str, css_dir: &str, backend: SassBackend) -> (r: Result<
        Context,
        ConfigError,
    >)
        ensures
            r is Ok ==> r->Ok_0.backend == backend,
            sass_dir@.len() == 0 ==> r is Err && r->Err_0.role == DirRole::Sass,
            r is Err ==> (r->Err_0.role == DirRole::Sass && r->Err_0.path@ == sass_dir@) || (
            r->Err_0.role == DirRole::Css && r->Err_0.path@ == css_dir@),
    {
        let sass = normalize_dir(sass_dir);
        let css = if sass.is_ok() {
            resolve_output_dir(css_dir)
        } else {
            Err(String::new())
        };
        Context::from_normalized(sass_dir, css_dir, sass, css, backend)
    }
}

/// Owns the context and knows whether the source directory is watched for
/// changes.
pub struct ContextManager {
    context: Context,
    live_reload: bool,
}

impl ContextManager {
    pub closed spec fn spec_context(&self) -> Context {
        self.context
    }

    /// Whether a watch subscription was established when the manager was
    /// made.
    pub closed spec fn is_live(&self) -> bool {
        self.live_reload
    }

    /// Whether `pending` unread change events call for a recompile.
    pub open spec fn reload_due(&self, pending: nat) -> bool {
        self.is_live() && pending > 0
    }

    /// The manager of `ctx`; `watching` says whether the watch on its
    /// source directory could be established.
    pub fn new(ctx: Context, watching: bool) -> (r: Self)
        ensures
            r.spec_context() == ctx,
            r.is_live() == watching,
    {
        ContextManager { context: ctx, live_reload: watching }
    }

    /// The current context.
    pub fn context(&self) -> (r: &Context)
        ensures
            *r == self.spec_context(),
    {
        &self.context
    }

    /// Replaces the context; the watch state stays as it was.
    pub fn context_mut(&mut self, ctx: Context)
        ensures
            final(self).spec_context() == ctx,
            final(self).is_live() == old(self).is_live(),
    {
        self.context = ctx;
    }

    /// Whether live reload is active.
    pub fn is_reloading(&self) -> (r: bool)
        ensures
            r == self.is_live(),
    {
        self.live_reload
    }

    /// Compiles the source files among `entries`, a walk of the source
    /// directory, in order, handing each one's path to `compile`. The first
    /// failure stops the pass, and no file after it is handed over; texts of
    /// files with the same base name replace each other.
    pub fn compile_all<F: Fn(String) -> Result<String, String>>(
        &self,
        entries: &Vec<SourceEntry>,
        compile: F,
    ) -> (r: CompilePass)
        requires
            forall|p: String| compile.requires((p,)),
        ensures
            exists|outs: Seq<Outcome>|
                {
                    &&& outs.len() == entries@.len()
                    &&& r.state() == #[trigger] pass_over(entries@, outs)
                    &&& compiled_by_each(compile, entries@, outs)
                },
    {
        let mut pass = CompilePass::new();
        let ghost mut outs: Seq<Outcome> = Seq::empty();
        let mut i: usize = 0;
        while i < entries.len()
            invariant
                i <= entries@.len(),
                outs.len() == i,
                pass.state() == pass_upto(entries@, outs, i as int),
                forall|p: String| compile.requires((p,)),
                forall|k: int|
                    0 <= k < i && is_source(entries@[k]) && (#[trigger] pass_upto(
                        entries@,
                        outs,
                        k,
                    )).1 is None ==> compiled_by(compile, entries@[k].path, outs[k]),
            decreases entries@.len() - i,
        {
            let ghost mut o: Outcome = Err(Seq::empty());
            let e = &entries[i];
            if e.kind.is_file() && !pass.is_finished() {
                match &e.name {
                    Some(name) => {
                        let res = compile(e.path.clone());
                        proof {
                            o = outcome_view(res);
                        }
                        pass.record(name.as_str(), res);
                    },
                    None => {},
                }
            }
            proof {
                let next = outs.push(o);
                lemma_pass_prefix(entries@, outs, next, i as int);
                assert forall|k: int| 0 <= k <= i implies #[trigger] pass_upto(entries@, next, k)
                    == pass_upto(entries@, outs, k) by {
                    lemma_pass_prefix(entries@, outs, next, k);
                }
                outs = next;
            }
            i = i + 1;
        }
        assert(pass.state() == pass_over(entries@, outs));
        pass
    }

    /// The files that writing `pass` creates in the output directory.
    pub fn write_compiled(&self, pass: &CompilePass) -> (r: Vec<OutputFile>)
        ensures
            outputs_of(r@) == plan_of(self.spec_context().css_dir@, pass.state().0),
    {
        plan_outputs(self.context.css_dir.as_str(), pass.assets())
    }

    /// A compile pass over `entries` with `compile`, and the files it
    /// writes.
    pub fn compile_all_and_write<F: Fn(String) -> Result<String, String>>(
        &self,
        entries: &Vec<SourceEntry>,
        compile: F,
    ) -> (r: (CompilePass, Vec<OutputFile>))
        requires
            forall|p: String| compile.requires((p,)),
        ensures
            exists|outs: Seq<Outcome>|
                {
                    &&& outs.len() == entries@.len()
                    &&& r.0.state() == #[trigger] pass_over(entries@, outs)
                    &&& compiled_by_each(compile, entries@, outs)
                },
            outputs_of(r.1@) == plan_of(self.spec_context().css_dir@, r.0.state().0),
    {
        let pass = self.compile_all(entries, compile);
        let files = self.write_compiled(&pass);
        (pass, files)
    }

    /// Whether `pending` change events, drained from the watch, call for a
    /// recompile: only while live reload is active, and only for one or
    /// more events.
    pub fn reload_if_needed(&self, pending: usize) -> (r: bool)
        ensures
            r == self.reload_due(pending as nat),
    {
        self.live_reload && pending > 0
    }
}

/// A manager made without a watch subscription never reloads: live reload
/// reads as inactive, and no count of pending events calls for a recompile.
/// Replacing the context keeps the watch state, so this holds for the
/// manager's whole life.
pub proof fn lemma_unwatched_never_reloads(m: ContextManager, pending: nat)
    requires
        !m.is_live(),
    ensures
        !m.reload_due(pending),
{
}

} // verus!
