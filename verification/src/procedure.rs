//! Procedures, while they are compiled and afterwards.

use vstd::prelude::*;
use vstd::string::*;

use crate::felt::Word;
use crate::path::{GlobalItemIndex, Path, SourceSpan, SymbolPath};
use crate::pending::{MastNodeRef, MastNodeUse, SourceNodeRef};
use crate::type_decl::Visibility;
use crate::types::Signature;

verus! {

/// The most locals that a procedure can have: the largest number of locals that is still a 16-bit
/// number when it is rounded up to whole words.
pub const MAX_PROC_LOCALS: u16 = 65532;

/// What is wrong with a procedure.
#[derive(Clone, Copy, PartialEq, Eq, Structural, Debug)]
pub enum AssemblerError {
    TooManyProcedureLocals { span: SourceSpan, max_locals: u16, num_locals: u16 },
    InvalidSourceNameAttribute { span: SourceSpan },
}

// ATTRIBUTES
// ================================================================================================

/// A part of an attribute.
pub enum MetaExpr {
    Ident(String),
    Text(String),
    Int(u64),
}

/// An attribute of a procedure.
pub enum Attribute {
    /// Such as `@inline`.
    Marker { span: SourceSpan, name: String },
    /// Such as `@props("a", "b")`.
    List { span: SourceSpan, name: String, items: Vec<MetaExpr> },
    /// Such as `@props(key = "value")`.
    KeyValue { span: SourceSpan, name: String, items: Vec<(String, MetaExpr)> },
}

impl Attribute {
    pub open spec fn id(self) -> Seq<char> {
        match self {
            Attribute::Marker { span: _, name } => name@,
            Attribute::List { span: _, name, items: _ } => name@,
            Attribute::KeyValue { span: _, name, items: _ } => name@,
        }
    }

    pub open spec fn place(self) -> SourceSpan {
        match self {
            Attribute::Marker { span, name: _ } => span,
            Attribute::List { span, name: _, items: _ } => span,
            Attribute::KeyValue { span, name: _, items: _ } => span,
        }
    }

    pub fn name(&self) -> (name: &String)
        ensures
            name@ == self.id(),
    {
        match self {
            Attribute::Marker { span: _, name } => name,
            Attribute::List { span: _, name, items: _ } => name,
            Attribute::KeyValue { span: _, name, items: _ } => name,
        }
    }

    pub fn span(&self) -> (span: SourceSpan)
        ensures
            span == self.place(),
    {
        match self {
            Attribute::Marker { span, name: _ } => *span,
            Attribute::List { span, name: _, items: _ } => *span,
            Attribute::KeyValue { span, name: _, items: _ } => *span,
        }
    }

    /// The only item of a list, if it is a quoted text.
    pub open spec fn only_text(self) -> Option<Seq<char>> {
        match self {
            Attribute::List { span: _, name: _, items } => if items@.len() == 1 {
                match items@[0] {
                    MetaExpr::Text(text) => Some(text@),
                    _ => None,
                }
            } else {
                None
            },
            _ => None,
        }
    }
}

/// The attributes of a procedure.
pub struct AttributeSet {
    pub items: Vec<Attribute>,
}

/// The first attribute of a name among the first `k`.
pub open spec fn attribute_index(items: Seq<Attribute>, name: Seq<char>, k: nat) -> Option<nat>
    decreases k,
{
    if k == 0 {
        None
    } else {
        match attribute_index(items, name, (k - 1) as nat) {
            Some(i) => Some(i),
            None => if items[k - 1].id() == name {
                Some((k - 1) as nat)
            } else {
                None
            },
        }
    }
}

impl AttributeSet {
    pub open spec fn found(self, name: Seq<char>) -> Option<Attribute> {
        match attribute_index(self.items@, name, self.items@.len()) {
            Some(i) => Some(self.items@[i as int]),
            None => None,
        }
    }

    pub fn new(items: Vec<Attribute>) -> (set: AttributeSet)
        ensures
            set.items == items,
    {
        AttributeSet { items }
    }

    /// The attribute of a name.
    pub fn get(&self, name: &str) -> (attribute: Option<&Attribute>)
        ensures
            match attribute {
                Some(attribute) => self.found(name@) == Some(*attribute),
                None => self.found(name@) is None,
            },
    {
        let text = String::from_str(name);
        let mut found: Option<usize> = None;
        let mut i: usize = 0;
        while i < self.items.len()
            invariant
                i <= self.items@.len(),
                text@ == name@,
                match found {
                    Some(k) => k < i && attribute_index(self.items@, name@, i as nat) == Some(
                        k as nat,
                    ),
                    None => attribute_index(self.items@, name@, i as nat) is None,
                },
            decreases self.items@.len() - i,
        {
            if found.is_none() && *self.items[i].name() == text {
                found = Some(i);
            }
            i += 1;
        }
        match found {
            Some(k) => Some(&self.items[k]),
            None => None,
        }
    }
}

// PROCEDURES
// ================================================================================================

/// A compiled procedure.
pub struct Procedure {
    pub span: SourceSpan,
    pub path: Path,
    pub signature: Option<Signature>,
    pub attributes: AttributeSet,
    pub visibility: Visibility,
    pub is_syscall: bool,
    pub num_locals: u32,
    pub mast_root: Word,
    /// The node of the body.
    pub body_node_ref: MastNodeRef,
    /// The occurrence of the body.
    pub body_source_ref: SourceNodeRef,
}

/// What `@source_name` says of a procedure: the name that it has in the source, below its module.
pub open spec fn source_name(path: SymbolPath, attributes: AttributeSet) -> Result<
    Option<SymbolPath>,
    AssemblerError,
> {
    match attributes.found("source_name"@) {
        None => Ok(None),
        Some(attribute) => match attribute.only_text() {
            Some(name) => Ok(Some(path.parent().join(name))),
            None => Err(
                AssemblerError::InvalidSourceNameAttribute { span: attribute.place() },
            ),
        },
    }
}

impl Procedure {
    /// Where the procedure is written.
    pub fn span(&self) -> (span: &SourceSpan)
        ensures
            *span == self.span,
    {
        &self.span
    }

    pub fn path(&self) -> (path: &Path)
        ensures
            *path == self.path,
    {
        &self.path
    }

    /// Tells whether the procedure can be called through `syscall`.
    pub fn is_syscall(&self) -> (res: bool)
        ensures
            res == self.is_syscall,
    {
        self.is_syscall
    }

    pub fn visibility(&self) -> (visibility: Visibility)
        ensures
            visibility == self.visibility,
    {
        self.visibility
    }

    /// The path of the procedure's module.
    pub fn module(&self) -> (path: Path)
        requires
            self.path@.components.len() > 0,
        ensures
            path@ == self.path@.parent(),
    {
        match self.path.parent() {
            Some(path) => path,
            None => self.path.copy(),
        }
    }

    pub fn signature(&self) -> (signature: &Option<Signature>)
        ensures
            *signature == self.signature,
    {
        &self.signature
    }

    pub fn attributes(&self) -> (attributes: &AttributeSet)
        ensures
            *attributes == self.attributes,
    {
        &self.attributes
    }

    /// The name that the procedure has in the source, below its module: the only item of
    /// `@source_name`, which is a quoted text.
    pub fn source_name_fully_qualified(&self) -> (res: Result<Option<Path>, AssemblerError>)
        requires
            self.path@.components.len() > 0,
        ensures
            match res {
                Ok(Some(path)) => source_name(self.path@, self.attributes) == Ok::<
                    Option<SymbolPath>,
                    AssemblerError,
                >(Some(path@)),
                Ok(None) => source_name(self.path@, self.attributes) == Ok::<
                    Option<SymbolPath>,
                    AssemblerError,
                >(None),
                Err(e) => source_name(self.path@, self.attributes) == Err::<
                    Option<SymbolPath>,
                    AssemblerError,
                >(e),
            },
    {
        let attribute = match self.attributes.get("source_name") {
            None => {
                return Ok(None);
            },
            Some(attribute) => attribute,
        };
        if let Attribute::List { span: _, name: _, items } = attribute {
            if items.len() == 1 {
                if let MetaExpr::Text(name) = &items[0] {
                    return Ok(Some(self.module().join(name.clone())));
                }
            }
        }
        Err(AssemblerError::InvalidSourceNameAttribute { span: attribute.span() })
    }

    /// The number of locals.
    pub fn num_locals(&self) -> (n: u32)
        ensures
            n == self.num_locals,
    {
        self.num_locals
    }

    /// The digest of the procedure's code.
    pub fn mast_root(&self) -> (root: Word)
        ensures
            root == self.mast_root,
    {
        self.mast_root
    }

    pub fn body_node_ref(&self) -> (node_ref: MastNodeRef)
        ensures
            node_ref == self.body_node_ref,
    {
        self.body_node_ref
    }

    pub fn body_source_ref(&self) -> (source_ref: SourceNodeRef)
        ensures
            source_ref == self.body_source_ref,
    {
        self.body_source_ref
    }

    pub open spec fn body(self) -> MastNodeUse {
        MastNodeUse { node_ref: self.body_node_ref, source_ref: self.body_source_ref }
    }

    pub fn body_node_use(&self) -> (u: MastNodeUse)
        ensures
            u == self.body(),
    {
        MastNodeUse { node_ref: self.body_node_ref, source_ref: self.body_source_ref }
    }

    pub fn set_body_source_ref(&mut self, source_ref: SourceNodeRef)
        ensures
            *final(self) == (Procedure { body_source_ref: source_ref, ..*old(self) }),
    {
        self.body_source_ref = source_ref;
    }
}

/// A procedure that is being compiled.
pub struct ProcedureContext {
    pub gid: GlobalItemIndex,
    pub is_program_entrypoint: bool,
    pub span: SourceSpan,
    pub path: Path,
    pub signature: Option<Signature>,
    pub attributes: AttributeSet,
    pub visibility: Visibility,
    pub is_kernel: bool,
    pub num_locals: u16,
}

impl ProcedureContext {
    /// The frame of the procedure fits in a 16-bit number of locals.
    pub open spec fn wf(self) -> bool {
        self.num_locals <= MAX_PROC_LOCALS
    }

    pub fn new(
        gid: GlobalItemIndex,
        is_program_entrypoint: bool,
        path: Path,
        visibility: Visibility,
        signature: Option<Signature>,
        is_kernel: bool,
    ) -> (context: ProcedureContext)
        ensures
            context.gid == gid,
            context.is_program_entrypoint == is_program_entrypoint,
            context.span == SourceSpan::unknown_span(),
            context.path == path,
            context.signature == signature,
            context.attributes.items@.len() == 0,
            context.visibility == visibility,
            context.is_kernel == is_kernel,
            context.num_locals == 0,
            context.wf(),
    {
        ProcedureContext {
            gid,
            is_program_entrypoint,
            span: SourceSpan::unknown(),
            path,
            signature,
            attributes: AttributeSet::new(Vec::new()),
            visibility,
            is_kernel,
            num_locals: 0,
        }
    }

    /// Sets the number of locals, which has to stay in bounds when it is rounded up to whole words.
    pub fn with_num_locals(self, num_locals: u16) -> (res: Result<
        ProcedureContext,
        AssemblerError,
    >)
        ensures
            res == if num_locals > MAX_PROC_LOCALS {
                Err::<ProcedureContext, AssemblerError>(
                    AssemblerError::TooManyProcedureLocals {
                        span: self.span,
                        max_locals: MAX_PROC_LOCALS,
                        num_locals,
                    },
                )
            } else {
                Ok(ProcedureContext { num_locals, ..self })
            },
            res is Ok ==> res->Ok_0.wf(),
    {
        if num_locals > MAX_PROC_LOCALS {
            return Err(
                AssemblerError::TooManyProcedureLocals {
                    span: self.span,
                    max_locals: MAX_PROC_LOCALS,
                    num_locals,
                },
            );
        }
        let mut context = self;
        context.num_locals = num_locals;
        Ok(context)
    }

    pub fn with_span(self, span: SourceSpan) -> (context: ProcedureContext)
        ensures
            context == (ProcedureContext { span, ..self }),
    {
        let mut context = self;
        context.span = span;
        context
    }

    pub fn with_attributes(self, attributes: AttributeSet) -> (context: ProcedureContext)
        ensures
            context == (ProcedureContext { attributes, ..self }),
    {
        ProcedureContext {
            gid: self.gid,
            is_program_entrypoint: self.is_program_entrypoint,
            span: self.span,
            path: self.path,
            signature: self.signature,
            attributes,
            visibility: self.visibility,
            is_kernel: self.is_kernel,
            num_locals: self.num_locals,
        }
    }

    pub fn id(&self) -> (gid: GlobalItemIndex)
        ensures
            gid == self.gid,
    {
        self.gid
    }

    pub fn is_program_entrypoint(&self) -> (res: bool)
        ensures
            res == self.is_program_entrypoint,
    {
        self.is_program_entrypoint
    }

    pub fn path(&self) -> (path: &Path)
        ensures
            *path == self.path,
    {
        &self.path
    }

    pub fn signature(&self) -> (signature: &Option<Signature>)
        ensures
            *signature == self.signature,
    {
        &self.signature
    }

    pub fn set_signature(&mut self, signature: Option<Signature>)
        ensures
            *final(self) == (ProcedureContext { signature, ..*old(self) }),
    {
        self.signature = signature;
    }

    pub fn num_locals(&self) -> (n: u16)
        ensures
            n == self.num_locals,
    {
        self.num_locals
    }

    /// The path of the procedure's module.
    pub fn module(&self) -> (path: Path)
        requires
            self.path@.components.len() > 0,
        ensures
            path@ == self.path@.parent(),
    {
        match self.path.parent() {
            Some(path) => path,
            None => self.path.copy(),
        }
    }

    pub fn is_kernel(&self) -> (res: bool)
        ensures
            res == self.is_kernel,
    {
        self.is_kernel
    }

    /// The procedure, now that its body is compiled. Public procedures of kernels can be called
    /// through `syscall`.
    pub fn into_procedure(self, mast_root: Word, body_node: MastNodeUse) -> (procedure: Procedure)
        ensures
            procedure == (Procedure {
                span: self.span,
                path: self.path,
                signature: self.signature,
                attributes: self.attributes,
                visibility: self.visibility,
                is_syscall: self.is_kernel && self.visibility is Public,
                num_locals: self.num_locals as u32,
                mast_root,
                body_node_ref: body_node.node_ref,
                body_source_ref: body_node.source_ref,
            }),
    {
        let is_syscall = self.is_kernel && self.visibility.is_public();
        Procedure {
            span: self.span,
            path: self.path,
            signature: self.signature,
            attributes: self.attributes,
            visibility: self.visibility,
            is_syscall,
            num_locals: self.num_locals as u32,
            mast_root,
            body_node_ref: body_node.node_ref,
            body_source_ref: body_node.source_ref,
        }
    }
}

/// A number of locals within bounds can be rounded up to whole words.
pub proof fn law_frame_fits(context: ProcedureContext)
    requires
        context.wf(),
    ensures
        crate::types::align_up(context.num_locals as nat, 4) <= u16::MAX,
{
}

/// The source name of a procedure stands in the place of its own name: procedures of one module
/// with the same attributes have the same source name, whatever they are called, and it lies in
/// their module.
pub proof fn law_source_names_stay_in_the_module(
    module: SymbolPath,
    a: Seq<char>,
    b: Seq<char>,
    attributes: AttributeSet,
)
    ensures
        source_name(module.join(a), attributes) == source_name(module.join(b), attributes),
        source_name(module.join(a), attributes) matches Ok(Some(path)) ==> path.parent() == module
            && attributes.found("source_name"@) is Some && attributes.found(
            "source_name"@,
        )->0.only_text() == Some(path.components.last()),
{
    crate::path::law_joined_paths_lie_below(module, a);
    crate::path::law_joined_paths_lie_below(module, b);
    match source_name(module.join(a), attributes) {
        Ok(Some(path)) => {
            crate::path::law_joined_paths_lie_below(module, path.components.last());
        },
        _ => {},
    }
}

/// A number of locals is refused if and only if it does not fit in two bytes once it is rounded up to
/// whole words.
pub proof fn law_locals_are_refused_where_frames_do_not_fit(num_locals: u16)
    ensures
        num_locals <= MAX_PROC_LOCALS <==> crate::types::align_up(num_locals as nat, 4) <= u16::MAX,
{
}

proof fn lemma_first_attribute(items: Seq<Attribute>, name: Seq<char>, k: nat)
    requires
        k <= items.len(),
    ensures
        match attribute_index(items, name, k) {
            Some(i) => i < k && items[i as int].id() == name && forall|j: int|
                0 <= j < i ==> (#[trigger] items[j]).id() != name,
            None => forall|j: int| 0 <= j < k ==> (#[trigger] items[j]).id() != name,
        },
    decreases k,
{
    if k > 0 {
        lemma_first_attribute(items, name, (k - 1) as nat);
    }
}

/// The attribute of a name is the first that has the name, and is there if any has it.
pub proof fn law_attributes_are_found_by_name(attributes: AttributeSet, name: Seq<char>)
    ensures
        match attributes.found(name) {
            Some(attribute) => attribute.id() == name && exists|i: int|
                0 <= i < attributes.items@.len() && #[trigger] attributes.items@[i] == attribute
                    && forall|j: int| 0 <= j < i ==> (#[trigger] attributes.items@[j]).id() != name,
            None => forall|i: int|
                0 <= i < attributes.items@.len() ==> (#[trigger] attributes.items@[i]).id() != name,
        },
{
    lemma_first_attribute(attributes.items@, name, attributes.items@.len());
    if let Some(i) = attribute_index(attributes.items@, name, attributes.items@.len()) {
        assert(attributes.items@[i as int] == attributes.found(name)->0);
    }
}

} // verus!
