//! Public entry point: [`MarkdownEngine`] and its builder.
//!
//! Typical usage: build an engine with a runtime and a resolution mode,
//! `parse` a source, `resolve` its directives, then render the document as
//! HTML, plain text or a debug tree.

use vstd::prelude::*;
use vstd::string::StringSliceAdditionalSpecFns;
use vstd::utf8::encode_utf8;

use crate::ast::{nodes_view, Document, NodeModel};
use crate::config::{EngineConfig, ReparseLimits, ResolutionMode};
use crate::diagnostics::{codes, diag_model, diags_model, plain_diag, DiagModel, Diagnostic, Severity};
use crate::error::{error_message, Error, Result};
use crate::extension::{MarkdownExtension, ParseContext, TransformContext, ValidationContext};
use crate::parser::{parse, parsed_from};
use crate::parser::registry::PlaceholderRegistry;
use crate::parser::tree::CmNode;
use crate::render;
use crate::runtime::{
    DirectiveInvocation, DirectiveOutput, DirectiveRuntime, HandlerDescriptor, NullRuntime, RuntimeContext, RuntimeError, ScriptId,
    ScriptSource,
};
use crate::transform::normalize::{norm_seq, normalize};
use crate::transform::resolve::{extends, free_seq, resolve, resolves_to, RuntimeCall};

verus! {

/// Number of error-severity diagnostics.
pub open spec fn error_count(d: Seq<DiagModel>) -> nat
    decreases d.len(),
{
    if d.len() == 0 {
        0
    } else {
        error_count(d.drop_last()) + if d.last().severity == Severity::Error {
            1nat
        } else {
            0nat
        }
    }
}

/// Appends `x` to `v`.
fn push_back<T>(v: &mut Vec<T>, x: T)
    ensures
        final(v)@ == old(v)@.push(x),
        final(v)@.len() == old(v)@.len() + 1,
{
    v.push(x);
}

proof fn lemma_extends_prefix(a: Seq<Diagnostic>, b: Seq<Diagnostic>, c: Seq<Diagnostic>)
    requires
        extends(a, b),
        extends(b, c),
    ensures
        extends(a, c),
{
    assert(c.subrange(0, a.len() as int) =~= c.subrange(0, b.len() as int).subrange(0, a.len() as int));
}

/// Builder for [`MarkdownEngine`].
pub struct MarkdownEngineBuilder {
    config: EngineConfig,
    runtime: Option<Box<dyn DirectiveRuntime>>,
    extensions: Vec<Box<dyn MarkdownExtension>>,
}

impl Default for MarkdownEngineBuilder {
    fn default() -> (r: Self)
        ensures
            r.config_of().resolution == ResolutionMode::Lenient,
            r.config_of().limits.max_reparse_depth == 4,
            r.config_of().limits.max_directives_per_document == 1024,
            !r.has_runtime(),
            r.extension_count() == 0,
    {
        MarkdownEngineBuilder { config: EngineConfig::default(), runtime: None, extensions: Vec::new() }
    }
}

impl MarkdownEngineBuilder {
    pub closed spec fn config_of(self) -> EngineConfig {
        self.config
    }

    pub closed spec fn has_runtime(self) -> bool {
        self.runtime is Some
    }

    pub closed spec fn extension_count(self) -> nat {
        self.extensions@.len()
    }

    /// The extensions added so far, in the order in which their hooks run.
    pub closed spec fn extensions_of(self) -> Seq<Box<dyn MarkdownExtension>> {
        self.extensions@
    }

    pub fn with_runtime(self, runtime: Box<dyn DirectiveRuntime>) -> (r: Self)
        ensures
            r.config_of() == self.config_of(),
            r.has_runtime(),
            r.extension_count() == self.extension_count(),
    {
        let mut b = self;
        b.runtime = Some(runtime);
        b
    }

    pub fn with_resolution_mode(self, mode: ResolutionMode) -> (r: Self)
        ensures
            r.config_of().resolution == mode,
            r.config_of().limits == self.config_of().limits,
            r.has_runtime() == self.has_runtime(),
            r.extension_count() == self.extension_count(),
    {
        let mut b = self;
        b.config.resolution = mode;
        b
    }

    pub fn with_reparse_limits(self, limits: ReparseLimits) -> (r: Self)
        ensures
            r.config_of().limits == limits,
            r.config_of().resolution == self.config_of().resolution,
            r.has_runtime() == self.has_runtime(),
            r.extension_count() == self.extension_count(),
    {
        let mut b = self;
        b.config.limits = limits;
        b
    }

    /// Adds `ext` after the extensions already added.
    pub fn with_extension(self, ext: Box<dyn MarkdownExtension>) -> (r: Self)
        ensures
            r.config_of() == self.config_of(),
            r.has_runtime() == self.has_runtime(),
            r.extensions_of() == self.extensions_of().push(ext),
            r.extension_count() == self.extension_count() + 1,
    {
        let MarkdownEngineBuilder { config, runtime, mut extensions } = self;
        push_back(&mut extensions, ext);
        MarkdownEngineBuilder { config, runtime, extensions }
    }

    /// The engine, with the [`NullRuntime`] when no runtime was given.
    pub fn build(self) -> (r: Result<MarkdownEngine>)
        ensures
            r matches Ok(e) && e.config_of() == self.config_of() && e.extension_count()
                == self.extension_count(),
    {
        let runtime: Box<dyn DirectiveRuntime> = match self.runtime {
            Some(r) => r,
            None => Box::new(NullRuntime),
        };
        Ok(MarkdownEngine { config: self.config, runtime, extensions: self.extensions })
    }
}

/// The primary entry point. Owns a [`DirectiveRuntime`] and a configuration.
pub struct MarkdownEngine {
    config: EngineConfig,
    runtime: Box<dyn DirectiveRuntime>,
    extensions: Vec<Box<dyn MarkdownExtension>>,
}

/// The document the engine makes of a source when no extension is installed:
/// the parsed document with its child lists normalized.
pub open spec fn engine_parsed(source: Seq<char>, r: Document) -> bool {
    exists|d: Document, reg: PlaceholderRegistry, t: CmNode|
        #[trigger] parsed_from(source, d, reg, t) && r.source == d.source && r.frontmatter
            == d.frontmatter && r.diagnostics == d.diagnostics && nodes_view(r.children@)
            == norm_seq(nodes_view(d.children@))
}

/// One call of an extension's `preprocess` hook: the text it was handed and
/// what it returned.
pub struct PreprocessCall {
    pub input: Seq<char>,
    pub outcome: std::result::Result<Option<String>, Error>,
}

/// The text after the preprocess hooks that returned `pre`: the last text a
/// hook returned as `Ok(Some(..))`, else `source`.
pub open spec fn rewritten_text(source: Seq<char>, pre: Seq<PreprocessCall>) -> Seq<char>
    decreases pre.len(),
{
    if pre.len() == 0 {
        source
    } else {
        match pre.last().outcome {
            Ok(Some(t)) => t@,
            _ => rewritten_text(source, pre.drop_last()),
        }
    }
}

/// One call of an extension's `transform_ast` hook: the document it was
/// handed, the document it left, what it returned, and, where it failed, the
/// extension's name and the error's message.
pub struct TransformCall {
    pub before: Document,
    pub after: Document,
    pub outcome: std::result::Result<(), Error>,
    pub name: Seq<char>,
    pub message: Seq<char>,
}

/// The document after a transform hook: what the hook left, with one warning
/// added where it failed.
pub open spec fn transformed(c: TransformCall, next: Document) -> bool {
    match c.outcome {
        Ok(()) => next == c.after,
        Err(e) => {
            &&& next.source == c.after.source
            &&& next.frontmatter == c.after.frontmatter
            &&& next.children == c.after.children
            &&& next.diagnostics@.len() == c.after.diagnostics@.len() + 1
            &&& next.diagnostics@.drop_last() == c.after.diagnostics@
            &&& diag_model(next.diagnostics@.last()) == plain_diag(
                Severity::Warning,
                codes::EXTENSION_FAILURE@,
                "extension "@ + c.name + " transform failed: "@ + c.message,
                None,
            )
            &&& error_message(e).is_prefix_of(c.message)
            &&& !(e is Io) ==> c.message == error_message(e)
        },
    }
}

/// `r` is what parsing `source` with `n` extensions gives, where their
/// preprocess hooks answered as `pre` records and their transform hooks as
/// `tr` records: each preprocess hook is handed the text the earlier ones
/// left; the text they leave is parsed and normalized; each transform hook is
/// handed the document the earlier ones left.
pub open spec fn parse_pipeline(
    source: Seq<char>,
    n: nat,
    pre: Seq<PreprocessCall>,
    tr: Seq<TransformCall>,
    r: Document,
) -> bool {
    &&& pre.len() == n
    &&& tr.len() == n
    &&& forall|i: int| 0 <= i < n ==> (#[trigger] pre[i]).input == rewritten_text(source, pre.take(i))
    &&& n == 0 ==> engine_parsed(source, r)
    &&& n > 0 ==> {
        &&& engine_parsed(rewritten_text(source, pre), tr[0].before)
        &&& forall|j: int| 0 <= j < n - 1 ==> transformed(#[trigger] tr[j], tr[j + 1].before)
        &&& transformed(tr[n - 1], r)
    }
}


/// `r` is `d` after the validation hooks: the same document with warnings
/// added, each saying that an extension failed.
pub open spec fn validated(d: Document, r: Document) -> bool {
    &&& r.source == d.source
    &&& r.frontmatter == d.frontmatter
    &&& r.children == d.children
    &&& extends(d.diagnostics@, r.diagnostics@)
    &&& forall|i: int|
        d.diagnostics@.len() <= i < r.diagnostics@.len() ==> (#[trigger] r.diagnostics@[i]).severity
            == Severity::Warning && r.diagnostics@[i].code@ == codes::EXTENSION_FAILURE@
}

impl MarkdownEngine {
    pub closed spec fn config_of(self) -> EngineConfig {
        self.config
    }

    pub closed spec fn extension_count(self) -> nat {
        self.extensions@.len()
    }

    /// Whether `r` is an answer the engine's runtime gives when its
    /// `execute` is handed `handler`, `invocation` and `ctx`.
    pub closed spec fn runtime_answers(
        self,
        handler: Seq<char>,
        invocation: DirectiveInvocation,
        ctx: RuntimeContext,
        r: std::result::Result<DirectiveOutput, RuntimeError>,
    ) -> bool {
        self.runtime.answers(handler, invocation, ctx, r)
    }

    /// Every recorded call is an answer of the engine's runtime to the
    /// invocation it was handed.
    pub open spec fn answered(self, ctx: RuntimeContext, calls: Seq<RuntimeCall>) -> bool {
        forall|i: int|
            0 <= i < calls.len() ==> self.runtime_answers(
                (#[trigger] calls[i]).invocation.name@,
                calls[i].invocation,
                ctx,
                calls[i].outcome,
            )
    }

    /// `d` is `doc` resolved by this engine under `ctx`: `doc` itself in
    /// passthrough mode, else resolution as [`resolves_to`] states for calls
    /// that the engine's runtime answered.
    pub open spec fn resolved_doc(self, ctx: RuntimeContext, doc: Document, d: Document) -> bool {
        if self.config_of().resolution == ResolutionMode::Passthrough {
            d == doc
        } else {
            exists|calls: Seq<RuntimeCall>|
                #[trigger] resolves_to(
                    doc,
                    d,
                    calls,
                    self.config_of().resolution,
                    self.config_of().limits,
                ) && self.answered(ctx, calls)
        }
    }

    /// What [`MarkdownEngine::resolve_keep`] gives for `doc` under `ctx`: the
    /// document resolution makes of it, after the validation hooks (with no
    /// extension, the resolved document itself), and the number of error
    /// diagnostics added after those `doc` carried.
    pub open spec fn keeps(self, ctx: RuntimeContext, doc: Document, r: (Document, usize)) -> bool {
        &&& exists|d: Document| self.resolved_doc(ctx, doc, d) && #[trigger] validated(d, r.0)
        &&& self.extension_count() == 0 ==> self.resolved_doc(ctx, doc, r.0)
        &&& extends(doc.diagnostics@, r.0.diagnostics@)
        &&& r.1 == error_count(diags_model(r.0.diagnostics@).skip(doc.diagnostics@.len() as int))
    }

    pub fn builder() -> (r: MarkdownEngineBuilder)
        ensures
            r.config_of().resolution == ResolutionMode::Lenient,
            r.config_of().limits.max_reparse_depth == 4,
            r.config_of().limits.max_directives_per_document == 1024,
            !r.has_runtime(),
            r.extension_count() == 0,
    {
        MarkdownEngineBuilder::default()
    }

    pub fn config(&self) -> (r: &EngineConfig)
        ensures
            *r == self.config_of(),
    {
        &self.config
    }

    pub fn runtime(&self) -> &dyn DirectiveRuntime {
        &*self.runtime
    }

    // ---- script management (delegated to the runtime) --------------------
    pub fn load_script(&mut self, source: ScriptSource) -> (r: std::result::Result<
        ScriptId,
        RuntimeError,
    >)
        ensures
            final(self).config_of() == old(self).config_of(),
            final(self).extension_count() == old(self).extension_count(),
    {
        self.runtime.load_script(source)
    }

    pub fn unload_script(&mut self, id: ScriptId) -> (r: std::result::Result<(), RuntimeError>)
        ensures
            final(self).config_of() == old(self).config_of(),
            final(self).extension_count() == old(self).extension_count(),
    {
        self.runtime.unload_script(id)
    }

    /// Unload the script, then load the new source; an unload failure is
    /// returned as it is and nothing is loaded.
    pub fn reload_script(&mut self, id: ScriptId, source: ScriptSource) -> (r: std::result::Result<
        ScriptId,
        RuntimeError,
    >)
        ensures
            final(self).config_of() == old(self).config_of(),
            final(self).extension_count() == old(self).extension_count(),
    {
        match self.runtime.unload_script(id) {
            Ok(()) => {},
            Err(e) => {
                return Err(e);
            },
        }
        self.runtime.load_script(source)
    }

    pub fn list_handlers(&self) -> Vec<HandlerDescriptor> {
        self.runtime.list_handlers()
    }

    // ---- pipeline ---------------------------------------------------------
    /// Parse `source` into a `Document`. Runs host extensions' `preprocess`
    /// and `transform_ast` hooks but does not resolve directives.
    pub fn parse(&self, source: &str) -> (r: Document)
        ensures
            exists|pre: Seq<PreprocessCall>, tr: Seq<TransformCall>|
                #[trigger] parse_pipeline(source@, self.extension_count(), pre, tr, r),
            self.extension_count() == 0 ==> engine_parsed(source@, r),
    {
        let mut pre: Ghost<Seq<PreprocessCall>> = Ghost(Seq::empty());
        let src_owned = self.preprocess_all(source, &mut pre);
        let effective: &str = match &src_owned {
            Some(s) => s.as_str(),
            None => source,
        };
        let mut doc = parse(effective);
        let ghost d0 = doc;
        normalize(&mut doc);
        let ghost d1 = doc;
        proof {
            let (reg, t) = choose|reg: PlaceholderRegistry, t: CmNode|
                parsed_from(effective@, d0, reg, t);
            assert(parsed_from(effective@, d0, reg, t));
            assert(engine_parsed(effective@, d1));
        }
        let mut tr: Ghost<Seq<TransformCall>> = Ghost(Seq::empty());
        self.transform_all(&mut doc, &mut tr);
        proof {
            assert(parse_pipeline(source@, self.extensions@.len(), pre@, tr@, doc));
            assert(parse_pipeline(source@, self.extension_count(), pre@, tr@, doc));
            if self.extensions@.len() == 0 {
                assert(engine_parsed(source@, doc));
            }
        }
        doc
    }

    /// Run each extension's preprocess hook on the text the earlier ones
    /// left; the text the last `Ok(Some(..))` gave, if any.
    fn preprocess_all(&self, source: &str, pre: &mut Ghost<Seq<PreprocessCall>>) -> (r: Option<String>)
        requires
            old(pre)@.len() == 0,
        ensures
            final(pre)@.len() == self.extensions@.len(),
            forall|i: int|
                0 <= i < self.extensions@.len() ==> (#[trigger] final(pre)@[i]).input == rewritten_text(
                    source@,
                    final(pre)@.take(i),
                ),
            match r {
                Some(s) => s@,
                None => source@,
            } == rewritten_text(source@, final(pre)@),
            self.extensions@.len() == 0 ==> r is None,
    {
        let mut src_owned: Option<String> = None;
        let mut parse_ctx = ParseContext;
        let mut k: usize = 0;
        while k < self.extensions.len()
            invariant
                k <= self.extensions@.len(),
                self.extensions@.len() == 0 ==> src_owned is None,
                pre@.len() == k,
                forall|i: int| 0 <= i < k ==> (#[trigger] pre@[i]).input == rewritten_text(source@, pre@.take(i)),
                match src_owned {
                    Some(s) => s@,
                    None => source@,
                } == rewritten_text(source@, pre@),
            decreases self.extensions.len() - k,
        {
            let ghost input = if src_owned is Some {
                src_owned->0@
            } else {
                source@
            };
            let rewritten = match &src_owned {
                Some(s) => self.extensions[k].preprocess(s.as_str(), &mut parse_ctx),
                None => self.extensions[k].preprocess(source, &mut parse_ctx),
            };
            let ghost call = PreprocessCall { input, outcome: rewritten };
            if let Ok(Some(rewritten)) = rewritten {
                src_owned = Some(rewritten);
            }
            let ghost p0 = pre@;
            *pre = Ghost(pre@.push(call));
            proof {
                assert(pre@.drop_last() =~= p0);
                assert(pre@.take(k as int) =~= p0);
                assert forall|i: int| 0 <= i < k + 1 implies (#[trigger] pre@[i]).input
                    == rewritten_text(source@, pre@.take(i)) by {
                    if i < k {
                        assert(pre@.take(i) =~= p0.take(i));
                    }
                }
            }
            k = k + 1;
        }
        src_owned
    }

    /// Run each extension's transform hook on the document, adding a warning
    /// for each that fails.
    fn transform_all(&self, doc: &mut Document, tr: &mut Ghost<Seq<TransformCall>>)
        requires
            old(tr)@.len() == 0,
        ensures
            final(tr)@.len() == self.extensions@.len(),
            self.extensions@.len() == 0 ==> *final(doc) == *old(doc),
            self.extensions@.len() > 0 ==> {
                &&& final(tr)@[0].before == *old(doc)
                &&& forall|x: int|
                    0 <= x < self.extensions@.len() - 1 ==> transformed(
                        #[trigger] final(tr)@[x],
                        final(tr)@[x + 1].before,
                    )
                &&& transformed(final(tr)@[self.extensions@.len() - 1], *final(doc))
            },
    {
        let ghost d1 = *doc;
        let mut tctx = TransformContext;
        let mut j: usize = 0;
        while j < self.extensions.len()
            invariant
                j <= self.extensions@.len(),
                tr@.len() == j,
                j == 0 ==> *doc == d1,
                j > 0 ==> tr@[0].before == d1,
                forall|x: int| 0 <= x < j - 1 ==> transformed(#[trigger] tr@[x], tr@[x + 1].before),
                j > 0 ==> transformed(tr@[j - 1], *doc),
            decreases self.extensions.len() - j,
        {
            let ghost before = *doc;
            let res = self.extensions[j].transform_ast(doc, &mut tctx);
            let ghost after = *doc;
            let ghost mut name: Seq<char> = Seq::empty();
            let ghost mut message: Seq<char> = Seq::empty();
            let ghost outcome = res;
            match res {
                Ok(()) => {},
                Err(e) => {
                    let mut msg = "extension ".to_owned();
                    let nm = self.extensions[j].name();
                    msg.append(nm);
                    msg.append(" transform failed: ");
                    let m = e.message();
                    msg.append(m.as_str());
                    let w = Diagnostic::warning(codes::EXTENSION_FAILURE, msg);
                    doc.diagnostics.push(w);
                    proof {
                        name = nm@;
                        message = m@;
                        assert(doc.diagnostics@.drop_last() =~= after.diagnostics@);
                    }
                },
            }
            let ghost t0 = tr@;
            let ghost c = TransformCall { before, after, outcome, name, message };
            *tr = Ghost(tr@.push(c));
            proof {
                assert(transformed(c, *doc));
                assert forall|x: int| 0 <= x < j implies transformed(#[trigger] tr@[x], tr@[x + 1].before) by {
                    if x < j - 1 {
                        assert(tr@[x] == t0[x]);
                        assert(tr@[x + 1] == t0[x + 1]);
                    } else {
                        assert(tr@[x] == t0[x]);
                        assert(tr@[x + 1] == c);
                    }
                }
            }
            j = j + 1;
        }
    }

    /// Run the resolution pass. Honors [`ResolutionMode`]. In `Strict` mode,
    /// returns `Error::StrictDiagnostics` if any error-severity diagnostics
    /// were emitted during resolution, with their number; callers who want
    /// the document even then should use `resolve_keep`. Otherwise the
    /// document that `resolve_keep` gives.
    pub fn resolve(&self, doc: Document, ctx: &RuntimeContext) -> (r: Result<Document>)
        ensures
            exists|d: Document, n: usize|
                #[trigger] self.keeps(*ctx, doc, (d, n)) && if self.config_of().resolution
                    == ResolutionMode::Strict && n > 0 {
                    r == Err::<Document, Error>(Error::StrictDiagnostics { count: n })
                } else {
                    r == Ok::<Document, Error>(d)
                },
            self.config_of().resolution == ResolutionMode::Passthrough && self.extension_count()
                == 0 ==> r == Ok::<Document, Error>(doc),
    {
        let (doc, err_count) = self.resolve_keep(doc, ctx);
        if let ResolutionMode::Strict = self.config.resolution {
            if err_count > 0 {
                return Err(Error::StrictDiagnostics { count: err_count });
            }
        }
        Ok(doc)
    }

    /// Run the resolution pass and return the document along with the number
    /// of error-severity diagnostics emitted during resolution.
    pub fn resolve_keep(&self, doc: Document, ctx: &RuntimeContext) -> (r: (Document, usize))
        ensures
            self.keeps(*ctx, doc, r),
            r.0.source == doc.source,
            self.extension_count() == 0 ==> r.0.frontmatter == doc.frontmatter,
            self.config_of().resolution == ResolutionMode::Passthrough && self.extension_count()
                == 0 ==> r.0 == doc,
            self.extension_count() == 0 && free_seq(nodes_view(doc.children@)) ==> nodes_view(
                r.0.children@,
            ) == nodes_view(doc.children@) && r.0.diagnostics@ == doc.diagnostics@,
    {
        let ghost doc0 = doc;
        let n0: usize = doc.diagnostics.len();
        let mut doc = doc;
        resolve(&mut doc, &*self.runtime, self.config.resolution, self.config.limits, ctx);
        let ghost d_res = doc;
        proof {
            assert(self.resolved_doc(*ctx, doc0, d_res));
            assert(d_res.diagnostics@.subrange(0, d_res.diagnostics@.len() as int) =~= d_res.diagnostics@);
        }
        let mut vctx = ValidationContext;
        let mut j: usize = 0;
        while j < self.extensions.len()
            invariant
                j <= self.extensions@.len(),
                validated(d_res, doc),
                self.extensions@.len() == 0 ==> doc == d_res,
            decreases self.extensions.len() - j,
        {
            match self.extensions[j].validate(&doc, &mut vctx) {
                Ok(()) => {},
                Err(e) => {
                    let mut msg = "extension ".to_owned();
                    msg.append(self.extensions[j].name());
                    msg.append(" validation failed: ");
                    let m = e.message();
                    msg.append(m.as_str());
                    let ghost before = doc.diagnostics@;
                    let w = Diagnostic::warning(codes::EXTENSION_FAILURE, msg);
                    doc.diagnostics.push(w);
                    proof {
                        assert(doc.diagnostics@.subrange(0, d_res.diagnostics@.len() as int)
                            =~= before.subrange(0, d_res.diagnostics@.len() as int));
                        assert forall|i: int|
                            d_res.diagnostics@.len() <= i < doc.diagnostics@.len() implies (
                            #[trigger] doc.diagnostics@[i]).severity == Severity::Warning
                            && doc.diagnostics@[i].code@ == codes::EXTENSION_FAILURE@ by {
                            if i < before.len() {
                                assert(doc.diagnostics@[i] == before[i]);
                            }
                        }
                    }
                },
            }
            j = j + 1;
        }
        proof {
            lemma_extends_prefix(doc0.diagnostics@, d_res.diagnostics@, doc.diagnostics@);
        }
        let ghost dm = diags_model(doc.diagnostics@);
        let mut errs: usize = 0;
        let mut i: usize = n0;
        proof {
            assert(dm.subrange(n0 as int, n0 as int) =~= Seq::<DiagModel>::empty());
        }
        while i < doc.diagnostics.len()
            invariant
                dm == diags_model(doc.diagnostics@),
                n0 <= i <= doc.diagnostics@.len(),
                errs == error_count(dm.subrange(n0 as int, i as int)),
                errs <= i - n0,
            decreases doc.diagnostics.len() - i,
        {
            proof {
                assert(dm.subrange(n0 as int, i + 1).drop_last() =~= dm.subrange(n0 as int, i as int));
                assert(dm.subrange(n0 as int, i + 1).last() == dm[i as int]);
            }
            if let Severity::Error = doc.diagnostics[i].severity {
                errs = errs + 1;
            }
            i = i + 1;
        }
        proof {
            assert(dm.subrange(n0 as int, i as int) =~= dm.skip(n0 as int));
            assert(validated(d_res, doc));
        }
        (doc, errs)
    }

    // ---- rendering --------------------------------------------------------
    pub fn render_html(&self, doc: &Document) -> (r: String)
        ensures
            r@ == render::html::html_blocks(nodes_view(doc.children@)),
    {
        render::html::render(doc)
    }

    pub fn render_text(&self, doc: &Document) -> (r: String)
        ensures
            r@ == render::text::strip_trailing_newlines(
                render::text::text_joined(nodes_view(doc.children@)),
            ),
    {
        render::text::render(doc)
    }

    pub fn render_debug(&self, doc: &Document) -> (r: String)
        ensures
            r@ == render::debug::debug_doc(
                crate::parser::comrak_adapter::fm_view(doc.frontmatter),
                nodes_view(doc.children@),
                diags_model(doc.diagnostics@),
            ),
    {
        render::debug::render(doc)
    }
}

} // verus!
