use crate::json::{boolean, element, json_content, member, JsonContent};
use crate::span::Span;
use vstd::prelude::*;

verus! {

/// The rule that reports a module imported, or re-exported, more than once.
#[derive(Debug, Clone)]
pub struct NoDuplicateImports {
    include_exports: bool,
}

/// Whether a declaration imports or exports.
#[derive(Clone, Copy, Debug, PartialEq, Eq, Structural)]
pub enum DeclarationType {
    Import,
    Export,
}

/// The form in which a declaration names what it takes from a module.
#[derive(Clone, Copy, Debug, PartialEq, Eq, Structural)]
pub enum Specifier {
    Named,
    Default,
    Namespace,
    All,
}

/// What the rule remembers of a declaration.
#[derive(Clone, Copy, Debug, PartialEq, Eq, Structural)]
pub struct ModuleEntry {
    pub specifier: Specifier,
    pub declaration_type: DeclarationType,
}

/// One specifier of an import declaration.
#[derive(Clone, Copy, Debug, PartialEq, Eq, Structural)]
pub enum ImportDeclarationSpecifier {
    /// `{ name }`
    ImportSpecifier,
    /// `name`
    ImportDefaultSpecifier,
    /// `* as name`
    ImportNamespaceSpecifier,
}

/// `import ... from "source"`; without specifiers it is `import "source"`.
#[derive(Debug, PartialEq, Eq)]
pub struct ImportDeclaration {
    pub source: String,
    pub specifiers: Option<Vec<ImportDeclarationSpecifier>>,
    pub span: Span,
}

/// `export { ... }`, with `from "source"` or without.
#[derive(Debug, PartialEq, Eq)]
pub struct ExportNamedDeclaration {
    pub source: Option<String>,
    pub span: Span,
}

/// `export * from "source"`, or `export * as exported from "source"`.
#[derive(Debug, PartialEq, Eq)]
pub struct ExportAllDeclaration {
    pub source: String,
    pub exported: Option<String>,
    pub span: Span,
}

/// A declaration that the rule looks at.
#[derive(Debug, PartialEq, Eq)]
pub enum ModuleDeclaration {
    Import(ImportDeclaration),
    ExportNamed(ExportNamedDeclaration),
    ExportAll(ExportAllDeclaration),
}

/// A finding: what to tell, how to mend it, and the place.
#[derive(Debug, PartialEq, Eq)]
pub struct Diagnostic {
    pub message: String,
    pub help: String,
    pub label: Span,
}

/// The mathematical value of a [`Diagnostic`].
pub struct DiagnosticView {
    pub message: Seq<char>,
    pub help: Seq<char>,
    pub label: Span,
}

impl View for Diagnostic {
    type V = DiagnosticView;

    open spec fn view(&self) -> DiagnosticView {
        DiagnosticView { message: self.message@, help: self.help@, label: self.label }
    }
}

/// The mathematical value of an [`ImportDeclaration`].
pub struct ImportView {
    pub source: Seq<char>,
    pub specifiers: Option<Seq<ImportDeclarationSpecifier>>,
    pub span: Span,
}

/// The mathematical value of an [`ExportNamedDeclaration`].
pub struct ExportNamedView {
    pub source: Option<Seq<char>>,
    pub span: Span,
}

/// The mathematical value of an [`ExportAllDeclaration`].
pub struct ExportAllView {
    pub source: Seq<char>,
    pub exported: Option<Seq<char>>,
    pub span: Span,
}

/// The mathematical value of a [`ModuleDeclaration`].
pub enum ModuleDeclarationView {
    Import(ImportView),
    ExportNamed(ExportNamedView),
    ExportAll(ExportAllView),
}

impl View for ImportDeclaration {
    type V = ImportView;

    open spec fn view(&self) -> ImportView {
        ImportView {
            source: self.source@,
            specifiers: match self.specifiers {
                Some(list) => Some(list@),
                None => None,
            },
            span: self.span,
        }
    }
}

impl View for ExportNamedDeclaration {
    type V = ExportNamedView;

    open spec fn view(&self) -> ExportNamedView {
        ExportNamedView {
            source: match self.source {
                Some(text) => Some(text@),
                None => None,
            },
            span: self.span,
        }
    }
}

impl View for ExportAllDeclaration {
    type V = ExportAllView;

    open spec fn view(&self) -> ExportAllView {
        ExportAllView {
            source: self.source@,
            exported: match self.exported {
                Some(text) => Some(text@),
                None => None,
            },
            span: self.span,
        }
    }
}

impl View for ModuleDeclaration {
    type V = ModuleDeclarationView;

    open spec fn view(&self) -> ModuleDeclarationView {
        match self {
            ModuleDeclaration::Import(declaration) => ModuleDeclarationView::Import(declaration@),
            ModuleDeclaration::ExportNamed(declaration) => ModuleDeclarationView::ExportNamed(
                declaration@,
            ),
            ModuleDeclaration::ExportAll(declaration) => ModuleDeclarationView::ExportAll(
                declaration@,
            ),
        }
    }
}

/// The values of a sequence of declarations.
pub open spec fn declaration_views(declarations: Seq<ModuleDeclaration>) -> Seq<
    ModuleDeclarationView,
> {
    declarations.map_values(|d: ModuleDeclaration| d@)
}

/// The values of a sequence of diagnostics.
pub open spec fn diagnostic_views(diagnostics: Seq<Diagnostic>) -> Seq<DiagnosticView> {
    diagnostics.map_values(|d: Diagnostic| d@)
}

/// The entries that the rule has recorded, each with the module it names,
/// in the order of recording.
pub open spec fn record_views(records: Seq<(String, ModuleEntry)>) -> Seq<(Seq<char>, ModuleEntry)> {
    records.map_values(|r: (String, ModuleEntry)| (r.0@, r.1))
}

/// What the rule has gathered so far.
pub struct Progress {
    pub records: Seq<(Seq<char>, ModuleEntry)>,
    pub diagnostics: Seq<DiagnosticView>,
}

/// The finding for a module imported twice.
pub open spec fn duplicate_import(module_name: Seq<char>, span: Span) -> DiagnosticView {
    DiagnosticView {
        message: "'"@ + module_name + "' import is duplicated"@,
        help: "Merge the duplicated import into a single import statement"@,
        label: span,
    }
}

/// The finding for a module exported twice.
pub open spec fn duplicate_export(module_name: Seq<char>, span: Span) -> DiagnosticView {
    DiagnosticView {
        message: "'"@ + module_name + "' export is duplicated"@,
        help: "Merge the duplicated exports into a single export statement"@,
        label: span,
    }
}

/// The kinds of earlier entry that a declaration can collide with.
#[derive(Clone, Copy, Debug, PartialEq, Eq, Structural)]
pub enum Clash {
    /// Any entry at all.
    Any,
    /// An import, or an `export *`.
    WithImport,
    /// An entry of the form `*`, import or export.
    StarForm,
    /// An import of the default export.
    DefaultImport,
}

/// Whether `entry` is of the kind `clash`.
pub open spec fn clashes(clash: Clash, entry: ModuleEntry) -> bool {
    match clash {
        Clash::Any => true,
        Clash::WithImport => entry.declaration_type == DeclarationType::Import || entry.specifier
            == Specifier::All,
        Clash::StarForm => entry.specifier == Specifier::All,
        Clash::DefaultImport => entry.declaration_type == DeclarationType::Import
            && entry.specifier == Specifier::Default,
    }
}

/// Whether an entry of the kind `clash` is recorded for `module_name`.
pub open spec fn recorded(
    records: Seq<(Seq<char>, ModuleEntry)>,
    module_name: Seq<char>,
    clash: Clash,
) -> bool {
    exists|i: int|
        0 <= i < records.len() && (#[trigger] records[i]).0 == module_name && clashes(
            clash,
            records[i].1,
        )
}

/// The form of an import, by its specifiers: `All` without a list, else
/// `Default` if one of them is the default, else `Namespace` if one of
/// them is the namespace, else `Named`.
pub open spec fn import_form(specifiers: Option<Seq<ImportDeclarationSpecifier>>) -> Specifier {
    match specifiers {
        None => Specifier::All,
        Some(list) => if list.contains(ImportDeclarationSpecifier::ImportDefaultSpecifier) {
            Specifier::Default
        } else if list.contains(ImportDeclarationSpecifier::ImportNamespaceSpecifier) {
            Specifier::Namespace
        } else {
            Specifier::Named
        },
    }
}

/// Whether the import has a namespace specifier.
pub open spec fn has_namespace(specifiers: Option<Seq<ImportDeclarationSpecifier>>) -> bool {
    match specifiers {
        None => false,
        Some(list) => list.contains(ImportDeclarationSpecifier::ImportNamespaceSpecifier),
    }
}

/// The progress after an import declaration. One with a namespace
/// specifier is passed over. One from a module that an import or an
/// `export *` has named already is reported and not recorded. Any other is
/// recorded.
pub open spec fn after_import(progress: Progress, declaration: ImportView) -> Progress {
    if has_namespace(declaration.specifiers) {
        progress
    } else if recorded(progress.records, declaration.source, Clash::WithImport) {
        Progress {
            records: progress.records,
            diagnostics: progress.diagnostics.push(
                duplicate_import(declaration.source, declaration.span),
            ),
        }
    } else {
        Progress {
            records: progress.records.push(
                (
                    declaration.source,
                    ModuleEntry {
                        specifier: import_form(declaration.specifiers),
                        declaration_type: DeclarationType::Import,
                    },
                ),
            ),
            diagnostics: progress.diagnostics,
        }
    }
}

/// The progress after an export of names. One without a source is passed
/// over. One from a module named before is reported; it is recorded
/// either way.
pub open spec fn after_export(progress: Progress, declaration: ExportNamedView) -> Progress {
    match declaration.source {
        None => progress,
        Some(module_name) => Progress {
            records: progress.records.push(
                (
                    module_name,
                    ModuleEntry {
                        specifier: Specifier::Named,
                        declaration_type: DeclarationType::Export,
                    },
                ),
            ),
            diagnostics: if recorded(progress.records, module_name, Clash::Any) {
                progress.diagnostics.push(duplicate_export(module_name, declaration.span))
            } else {
                progress.diagnostics
            },
        },
    }
}

/// The progress after an `export *`. From a module not named before it is
/// recorded. From one named before it is reported if an entry of the form
/// `*` is among the earlier ones; then, without `as`, it is passed over,
/// and with `as` it is reported if a default import is among the earlier
/// ones, and recorded.
pub open spec fn after_export_all(progress: Progress, declaration: ExportAllView) -> Progress {
    let module_name = declaration.source;
    let finding = duplicate_export(module_name, declaration.span);
    let entry = (
        module_name,
        ModuleEntry { specifier: Specifier::All, declaration_type: DeclarationType::Export },
    );
    if !recorded(progress.records, module_name, Clash::Any) {
        Progress { records: progress.records.push(entry), diagnostics: progress.diagnostics }
    } else {
        let first = if recorded(progress.records, module_name, Clash::StarForm) {
            progress.diagnostics.push(finding)
        } else {
            progress.diagnostics
        };
        if declaration.exported is None {
            Progress { records: progress.records, diagnostics: first }
        } else {
            Progress {
                records: progress.records.push(entry),
                diagnostics: if recorded(progress.records, module_name, Clash::DefaultImport) {
                    first.push(finding)
                } else {
                    first
                },
            }
        }
    }
}

/// The progress after one declaration. Exports count only where the rule
/// includes them.
pub open spec fn after_declaration(
    include_exports: bool,
    progress: Progress,
    declaration: ModuleDeclarationView,
) -> Progress {
    match declaration {
        ModuleDeclarationView::Import(import) => after_import(progress, import),
        ModuleDeclarationView::ExportNamed(export) => if include_exports {
            after_export(progress, export)
        } else {
            progress
        },
        ModuleDeclarationView::ExportAll(export) => if include_exports {
            after_export_all(progress, export)
        } else {
            progress
        },
    }
}

/// The progress after the declarations of a program, in source order.
pub open spec fn after_all(include_exports: bool, declarations: Seq<ModuleDeclarationView>) -> Progress
    decreases declarations.len(),
{
    if declarations.len() == 0 {
        Progress { records: Seq::empty(), diagnostics: Seq::empty() }
    } else {
        after_declaration(
            include_exports,
            after_all(include_exports, declarations.drop_last()),
            declarations.last(),
        )
    }
}

/// The setting that a configuration value asks for: true exactly when the
/// value is an array whose first element is an object with the member
/// `includeExports` set to true.
pub open spec fn configured_exports(content: JsonContent) -> bool {
    match content {
        JsonContent::Array(items) => items.len() > 0 && match items[0] {
            JsonContent::Object(members) => members.contains_key("includeExports"@)
                && members["includeExports"@] == JsonContent::Bool(true),
            _ => false,
        },
        _ => false,
    }
}

/// The finding for a module imported twice.
pub fn no_duplicate_imports_diagnostic(module_name: &str, span: Span) -> (finding: Diagnostic)
    ensures
        finding@ == duplicate_import(module_name@, span),
{
    let mut message = String::from_str("'");
    message.append(module_name);
    message.append("' import is duplicated");
    Diagnostic {
        message,
        help: String::from_str("Merge the duplicated import into a single import statement"),
        label: span,
    }
}

/// The finding for a module exported twice.
pub fn no_duplicate_exports_diagnostic(module_name: &str, span: Span) -> (finding: Diagnostic)
    ensures
        finding@ == duplicate_export(module_name@, span),
{
    let mut message = String::from_str("'");
    message.append(module_name);
    message.append("' export is duplicated");
    Diagnostic {
        message,
        help: String::from_str("Merge the duplicated exports into a single export statement"),
        label: span,
    }
}

/// Whether `entry` is of the kind `clash`.
fn entry_clashes(clash: Clash, entry: ModuleEntry) -> (hit: bool)
    ensures
        hit == clashes(clash, entry),
{
    let import = match entry.declaration_type {
        DeclarationType::Import => true,
        DeclarationType::Export => false,
    };
    match clash {
        Clash::Any => true,
        Clash::WithImport => import || match entry.specifier {
            Specifier::All => true,
            _ => false,
        },
        Clash::StarForm => match entry.specifier {
            Specifier::All => true,
            _ => false,
        },
        Clash::DefaultImport => import && match entry.specifier {
            Specifier::Default => true,
            _ => false,
        },
    }
}

/// Whether an entry of the kind `clash` is recorded for `module_name`.
fn is_recorded(modules: &Vec<(String, ModuleEntry)>, module_name: &String, clash: Clash) -> (hit:
    bool)
    ensures
        hit == recorded(record_views(modules@), module_name@, clash),
{
    let mut i: usize = 0;
    while i < modules.len()
        invariant
            i <= modules.len(),
            forall|j: int|
                0 <= j < i ==> !((#[trigger] record_views(modules@)[j]).0 == module_name@
                    && clashes(clash, record_views(modules@)[j].1)),
        decreases modules.len() - i,
    {
        if modules[i].0 == *module_name && entry_clashes(clash, modules[i].1) {
            assert(record_views(modules@)[i as int].0 == module_name@);
            return true;
        }
        i += 1;
    }
    false
}

/// Whether `wanted` is among `specifiers`.
fn has_specifier(specifiers: &Vec<ImportDeclarationSpecifier>, wanted: ImportDeclarationSpecifier) -> (hit:
    bool)
    ensures
        hit == specifiers@.contains(wanted),
{
    let mut i: usize = 0;
    while i < specifiers.len()
        invariant
            i <= specifiers.len(),
            forall|j: int| 0 <= j < i ==> specifiers@[j] != wanted,
        decreases specifiers.len() - i,
    {
        if specifiers[i] == wanted {
            return true;
        }
        i += 1;
    }
    false
}

/// The progress that `modules` and `diagnostics` stand for.
pub open spec fn progress_of(modules: Seq<(String, ModuleEntry)>, diagnostics: Seq<Diagnostic>) -> Progress {
    Progress { records: record_views(modules), diagnostics: diagnostic_views(diagnostics) }
}

/// Takes an import declaration into account.
pub fn handle_import(
    import_decl: &ImportDeclaration,
    modules: &mut Vec<(String, ModuleEntry)>,
    diagnostics: &mut Vec<Diagnostic>,
)
    ensures
        progress_of(final(modules)@, final(diagnostics)@) == after_import(
            progress_of(old(modules)@, old(diagnostics)@),
            import_decl@,
        ),
{
    let mut specifier = Specifier::All;
    if let Some(specifiers) = &import_decl.specifiers {
        let namespace = has_specifier(
            specifiers,
            ImportDeclarationSpecifier::ImportNamespaceSpecifier,
        );
        specifier =
        if has_specifier(specifiers, ImportDeclarationSpecifier::ImportDefaultSpecifier) {
            Specifier::Default
        } else if namespace {
            Specifier::Namespace
        } else {
            Specifier::Named
        };
        if namespace {
            return ;
        }
    }
    if is_recorded(modules, &import_decl.source, Clash::WithImport) {
        let ghost before = diagnostic_views(diagnostics@);
        let finding = no_duplicate_imports_diagnostic(import_decl.source.as_str(), import_decl.span);
        diagnostics.push(finding);
        assert(diagnostic_views(diagnostics@) =~= before.push(finding@));
        return ;
    }
    let ghost before = record_views(modules@);
    let entry = ModuleEntry { specifier, declaration_type: DeclarationType::Import };
    modules.push((import_decl.source.clone(), entry));
    assert(record_views(modules@) =~= before.push((import_decl.source@, entry)));
}

/// Takes an export of names into account.
pub fn handle_export(
    export_decl: &ExportNamedDeclaration,
    modules: &mut Vec<(String, ModuleEntry)>,
    diagnostics: &mut Vec<Diagnostic>,
)
    ensures
        progress_of(final(modules)@, final(diagnostics)@) == after_export(
            progress_of(old(modules)@, old(diagnostics)@),
            export_decl@,
        ),
{
    let source = match &export_decl.source {
        Some(source) => source,
        None => {
            return ;
        },
    };
    if is_recorded(modules, source, Clash::Any) {
        let ghost before = diagnostic_views(diagnostics@);
        let finding = no_duplicate_exports_diagnostic(source.as_str(), export_decl.span);
        diagnostics.push(finding);
        assert(diagnostic_views(diagnostics@) =~= before.push(finding@));
    }
    let ghost before = record_views(modules@);
    let entry = ModuleEntry {
        specifier: Specifier::Named,
        declaration_type: DeclarationType::Export,
    };
    modules.push((source.clone(), entry));
    assert(record_views(modules@) =~= before.push((source@, entry)));
}

/// Takes an `export *` into account.
pub fn handle_export_all(
    export_decl: &ExportAllDeclaration,
    modules: &mut Vec<(String, ModuleEntry)>,
    diagnostics: &mut Vec<Diagnostic>,
)
    ensures
        progress_of(final(modules)@, final(diagnostics)@) == after_export_all(
            progress_of(old(modules)@, old(diagnostics)@),
            export_decl@,
        ),
{
    let source = &export_decl.source;
    if is_recorded(modules, source, Clash::Any) {
        if is_recorded(modules, source, Clash::StarForm) {
            let ghost before = diagnostic_views(diagnostics@);
            let finding = no_duplicate_exports_diagnostic(source.as_str(), export_decl.span);
            diagnostics.push(finding);
            assert(diagnostic_views(diagnostics@) =~= before.push(finding@));
        }
        if export_decl.exported.is_none() {
            return ;
        }
        if is_recorded(modules, source, Clash::DefaultImport) {
            let ghost before = diagnostic_views(diagnostics@);
            let finding = no_duplicate_exports_diagnostic(source.as_str(), export_decl.span);
            diagnostics.push(finding);
            assert(diagnostic_views(diagnostics@) =~= before.push(finding@));
        }
    }
    let ghost before = record_views(modules@);
    let entry = ModuleEntry { specifier: Specifier::All, declaration_type: DeclarationType::Export };
    modules.push((source.clone(), entry));
    assert(record_views(modules@) =~= before.push((source@, entry)));
}

impl Default for NoDuplicateImports {
    /// The rule as it is without a configuration: re-exports do not count.
    fn default() -> (rule: NoDuplicateImports)
        ensures
            !rule.includes_exports(),
    {
        NoDuplicateImports { include_exports: false }
    }
}

impl NoDuplicateImports {
    /// Whether re-exports count as well as imports.
    pub closed spec fn includes_exports(&self) -> bool {
        self.include_exports
    }

    /// The rule with the given setting.
    pub fn new(include_exports: bool) -> (rule: NoDuplicateImports)
        ensures
            rule.includes_exports() == include_exports,
    {
        NoDuplicateImports { include_exports }
    }

    /// Whether re-exports count as well as imports.
    pub fn include_exports(&self) -> (setting: bool)
        ensures
            setting == self.includes_exports(),
    {
        self.include_exports
    }

    /// The rule with the setting that was read from a configuration: the
    /// setting itself, and off where there is none.
    pub fn with_setting(setting: Option<bool>) -> (rule: NoDuplicateImports)
        ensures
            rule.includes_exports() == (setting == Some(true)),
    {
        match setting {
            Some(include_exports) => NoDuplicateImports { include_exports },
            None => NoDuplicateImports { include_exports: false },
        }
    }

    /// The rule as a configuration value sets it up. Re-exports count
    /// exactly when the value is an array whose first element is an object
    /// with the member `includeExports` set to true.
    pub fn from_configuration(value: serde_json::Value) -> (rule: NoDuplicateImports)
        ensures
            rule.includes_exports() == configured_exports(json_content(value)),
    {
        let first = match element(&value, 0) {
            Some(first) => first,
            None => {
                return NoDuplicateImports { include_exports: false };
            },
        };
        let setting = match member(first, "includeExports") {
            Some(found) => boolean(found),
            None => None,
        };
        NoDuplicateImports::with_setting(setting)
    }

    /// The findings for the declarations of a program, in source order.
    pub fn run_once(&self, declarations: &Vec<ModuleDeclaration>) -> (diagnostics: Vec<Diagnostic>)
        ensures
            diagnostic_views(diagnostics@) == after_all(
                self.includes_exports(),
                declaration_views(declarations@),
            ).diagnostics,
    {
        let ghost all = declaration_views(declarations@);
        let mut modules: Vec<(String, ModuleEntry)> = Vec::new();
        let mut diagnostics: Vec<Diagnostic> = Vec::new();
        let mut i: usize = 0;
        proof {
            assert(all.take(0) =~= Seq::<ModuleDeclarationView>::empty());
            assert(record_views(modules@) =~= Seq::<(Seq<char>, ModuleEntry)>::empty());
            assert(diagnostic_views(diagnostics@) =~= Seq::<DiagnosticView>::empty());
        }
        while i < declarations.len()
            invariant
                i <= declarations.len(),
                all == declaration_views(declarations@),
                progress_of(modules@, diagnostics@) == after_all(
                    self.includes_exports(),
                    all.take(i as int),
                ),
            decreases declarations.len() - i,
        {
            proof {
                assert(all.take(i + 1).drop_last() =~= all.take(i as int));
                assert(all.take(i + 1).last() == declarations@[i as int]@);
            }
            match &declarations[i] {
                ModuleDeclaration::Import(import_decl) => {
                    handle_import(import_decl, &mut modules, &mut diagnostics);
                },
                ModuleDeclaration::ExportNamed(export_decl) => {
                    if self.include_exports {
                        handle_export(export_decl, &mut modules, &mut diagnostics);
                    }
                },
                ModuleDeclaration::ExportAll(export_decl) => {
                    if self.include_exports {
                        handle_export_all(export_decl, &mut modules, &mut diagnostics);
                    }
                },
            }
            i += 1;
        }
        proof {
            assert(all.take(i as int) =~= all);
        }
        diagnostics
    }
}

} // verus!
