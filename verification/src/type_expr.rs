//! Types as they are written in source code.

use vstd::prelude::*;
use vstd::string::*;

use crate::path::{is_before, law_text_order_total, law_text_order_transitive};
use crate::path::{text_before, GlobalItemIndex, Path, SourceSpan, SymbolPath};
use crate::text::{decimal, push_decimal};
use crate::types::{
    copy_name, laid_out, name_model, named_models, AddressSpace, CallConv, NamedModel, NamedType,
    StructLayout, Type, TypeModel, TypeRepr,
};

verus! {

/// How deep type expressions may be nested, so that resolving one does not exhaust the stack.
pub const MAX_TYPE_EXPR_NESTING: usize = 256;

/// A type as it is written.
pub enum TypeExpr {
    /// A primitive type, such as `u16`.
    Primitive(SourceSpan, Type),
    /// A pointer, such as `ptr<u8>`.
    Ptr(PointerType),
    /// An array, such as `[u8; 32]`.
    Array(ArrayType),
    /// A structure, such as `struct { a: u32 }`.
    Struct(StructType),
    /// A type by its name.
    Ref(SourceSpan, Path),
}

pub struct PointerType {
    pub span: SourceSpan,
    pub pointee: Box<TypeExpr>,
    pub addrspace: Option<AddressSpace>,
}

pub struct ArrayType {
    pub span: SourceSpan,
    pub elem: Box<TypeExpr>,
    pub arity: usize,
}

pub struct StructType {
    pub span: SourceSpan,
    pub name: Option<String>,
    pub repr: TypeRepr,
    pub fields: Vec<StructField>,
}

pub struct StructField {
    pub span: SourceSpan,
    pub name: String,
    pub ty: TypeExpr,
}

/// A type expression, each part with the place where it is written.
pub ghost enum ExprModel {
    Primitive(SourceSpan, TypeModel),
    Ptr(SourceSpan, Option<AddressSpace>, Box<ExprModel>),
    Array(SourceSpan, Box<ExprModel>, usize),
    Struct(SourceSpan, Option<Seq<char>>, TypeRepr, Seq<FieldExpr>),
    Ref(SourceSpan, SymbolPath),
}

/// A field of a structure as it is written.
pub ghost struct FieldExpr {
    pub span: SourceSpan,
    pub name: Seq<char>,
    pub ty: ExprModel,
}

/// Where an expression is written.
pub open spec fn span_of(e: ExprModel) -> SourceSpan {
    match e {
        ExprModel::Primitive(span, _) => span,
        ExprModel::Ptr(span, _, _) => span,
        ExprModel::Array(span, _, _) => span,
        ExprModel::Struct(span, _, _, _) => span,
        ExprModel::Ref(span, _) => span,
    }
}

impl TypeExpr {
    pub open spec fn view(&self) -> ExprModel
        decreases self,
    {
        match self {
            TypeExpr::Primitive(span, ty) => ExprModel::Primitive(*span, ty@),
            TypeExpr::Ptr(ptr) => ExprModel::Ptr(
                ptr.span,
                ptr.addrspace,
                Box::new(ptr.pointee.view()),
            ),
            TypeExpr::Array(array) => ExprModel::Array(
                array.span,
                Box::new(array.elem.view()),
                array.arity,
            ),
            TypeExpr::Struct(ty) => ExprModel::Struct(
                ty.span,
                name_model(ty.name),
                ty.repr,
                Seq::new(
                    ty.fields@.len(),
                    |i: int|
                        if 0 <= i < ty.fields@.len() {
                            ty.fields[i].view()
                        } else {
                            arbitrary()
                        },
                ),
            ),
            TypeExpr::Ref(span, path) => ExprModel::Ref(*span, path@),
        }
    }
}

impl StructField {
    pub open spec fn view(&self) -> FieldExpr
        decreases self,
    {
        FieldExpr { span: self.span, name: self.name@, ty: self.ty.view() }
    }
}

pub open spec fn field_exprs(fields: Seq<StructField>) -> Seq<FieldExpr> {
    Seq::new(fields.len(), |i: int| fields[i]@)
}

proof fn lemma_struct_view(ty: StructType)
    ensures
        TypeExpr::Struct(ty)@ == ExprModel::Struct(
            ty.span,
            name_model(ty.name),
            ty.repr,
            field_exprs(ty.fields@),
        ),
{
    assert(TypeExpr::Struct(ty)@->Struct_3 =~= field_exprs(ty.fields@));
}

// REFERENCES
// ================================================================================================

/// A reference to a type: where it is written, and its path.
pub ghost struct RefModel {
    pub span: SourceSpan,
    pub path: SymbolPath,
}

/// The references in an expression, those of later fields before those of earlier ones.
pub open spec fn references_of(e: ExprModel) -> Seq<RefModel>
    decreases e, 0nat,
{
    match e {
        ExprModel::Primitive(_, _) => Seq::empty(),
        ExprModel::Ptr(_, _, pointee) => references_of(*pointee),
        ExprModel::Array(_, elem, _) => references_of(*elem),
        ExprModel::Struct(_, _, _, fields) => field_references(fields, fields.len()),
        ExprModel::Ref(span, path) => seq![RefModel { span, path }],
    }
}

/// The references in the first `k` fields.
pub open spec fn field_references(fields: Seq<FieldExpr>, k: nat) -> Seq<RefModel>
    decreases fields, k,
{
    if k == 0 || k > fields.len() {
        Seq::empty()
    } else {
        references_of(fields[k - 1].ty) + field_references(fields, (k - 1) as nat)
    }
}

/// How many expressions an expression is made of.
pub open spec fn parts(e: ExprModel) -> nat
    decreases e, 0nat,
{
    match e {
        ExprModel::Ptr(_, _, pointee) => 1 + parts(*pointee),
        ExprModel::Array(_, elem, _) => 1 + parts(*elem),
        ExprModel::Struct(_, _, _, fields) => 1 + field_parts(fields, fields.len()),
        _ => 1,
    }
}

pub open spec fn field_parts(fields: Seq<FieldExpr>, k: nat) -> nat
    decreases fields, k,
{
    if k == 0 || k > fields.len() {
        0
    } else {
        field_parts(fields, (k - 1) as nat) + parts(fields[k - 1].ty)
    }
}

/// Expressions that are still to be looked at, in place for as long as they are few.
#[verifier::external_body]
pub struct Worklist<'a> {
    items: smallvec::SmallVec<[&'a TypeExpr; 4]>,
}

/// The expressions on a list, the next one last.
pub uninterp spec fn waiting(list: Worklist<'_>) -> Seq<ExprModel>;

impl<'a> Worklist<'a> {
    /// `SmallVec::from_slice`: a list of one expression.
    #[verifier::external_body]
    fn from_slice(first: &'a TypeExpr) -> (list: Worklist<'a>)
        ensures
            waiting(list) == seq![first@],
    {
        Worklist { items: smallvec::SmallVec::from_slice(&[first]) }
    }

    /// `SmallVec::push`: the expression goes behind the others. Panics only where memory runs out.
    #[verifier::external_body]
    fn push(&mut self, next: &'a TypeExpr)
        ensures
            waiting(*final(self)) == waiting(*old(self)).push(next@),
    {
        self.items.push(next)
    }

    /// `SmallVec::pop`: takes the last expression, if there is one.
    #[verifier::external_body]
    fn pop(&mut self) -> (next: Option<&'a TypeExpr>)
        ensures
            match next {
                Some(e) => {
                    &&& waiting(*old(self)).len() > 0
                    &&& e@ == waiting(*old(self)).last()
                    &&& waiting(*final(self)) == waiting(*old(self)).drop_last()
                },
                None => waiting(*old(self)).len() == 0 && waiting(*final(self)).len() == 0,
            },
    {
        self.items.pop()
    }
}

/// A reference to a type.
pub struct TypeRef {
    pub span: SourceSpan,
    pub path: Path,
}

impl TypeRef {
    pub open spec fn view(&self) -> RefModel {
        RefModel { span: self.span, path: self.path@ }
    }
}

pub open spec fn ref_models(list: Seq<TypeRef>) -> Seq<RefModel> {
    Seq::new(list.len(), |i: int| list[i]@)
}

pub open spec fn ref_texts(list: Seq<RefModel>) -> Seq<Seq<char>> {
    Seq::new(list.len(), |i: int| list[i].path.text())
}

/// A reference is the first one with its text.
pub open spec fn is_first(list: Seq<RefModel>, item: RefModel) -> bool {
    exists|k: int|
        0 <= k < list.len() && #[trigger] list[k] == item && forall|i: int|
            0 <= i < k ==> (#[trigger] list[i]).path.text() != item.path.text()
}

/// Of references with the same text the first one is listed, in the order of their texts.
pub open spec fn lists_first(list: Seq<RefModel>, items: Seq<RefModel>) -> bool {
    &&& ordered(ref_texts(items))
    &&& forall|i: int| 0 <= i < items.len() ==> is_first(list, #[trigger] items[i])
    &&& forall|k: int|
        0 <= k < list.len() ==> ref_texts(items).contains((#[trigger] list[k]).path.text())
}

/// Texts in the order of dictionaries, each once.
pub open spec fn ordered(texts: Seq<Seq<char>>) -> bool {
    forall|i: int, j: int| 0 <= i < j < texts.len() ==> text_before(#[trigger] texts[i], #[trigger] texts[j])
}

/// A reference goes to its place in an ordered list, unless its text is there.
fn insert_reference(
    items: &mut Vec<TypeRef>,
    span: SourceSpan,
    path: &Path,
    Ghost(seen): Ghost<Seq<RefModel>>,
)
    requires
        lists_first(seen, ref_models(old(items)@)),
    ensures
        lists_first(seen.push(RefModel { span, path: path@ }), ref_models(final(items)@)),
{
    let ghost models = ref_models(items@);
    let ghost before = ref_texts(models);
    let ghost item = RefModel { span, path: path@ };
    let ghost more = seen.push(item);
    let text = path.to_string();
    let ghost t = text@;
    proof {
        assert forall|i: int| 0 <= i < models.len() implies is_first(more, #[trigger] models[i]) by {
            lemma_first_stays(seen, item, models[i]);
        }
    }
    let mut at: usize = 0;
    while at < items.len() && is_before(items[at].path.to_string().as_str(), text.as_str())
        invariant
            at <= items@.len(),
            models == ref_models(items@),
            before == ref_texts(models),
            t == text@,
            forall|k: int| 0 <= k < at ==> text_before(#[trigger] before[k], t),
        decreases items@.len() - at,
    {
        at += 1;
    }
    if at < items.len() {
        let here = items[at].path.to_string();
        proof {
            law_text_order_total(before[at as int], t);
        }
        if here == text {
            proof {
                assert(before[at as int] == t);
                assert forall|k: int| 0 <= k < more.len() implies before.contains(
                    (#[trigger] more[k]).path.text(),
                ) by {
                    if k < seen.len() {
                        assert(more[k] == seen[k]);
                    }
                }
            }
            return;
        }
    }
    items.insert(at, TypeRef { span, path: path.copy() });
    proof {
        let now = ref_models(items@);
        let after = ref_texts(now);
        assert(now =~= models.insert(at as int, item));
        assert(after =~= before.insert(at as int, t));
        assert forall|i: int, j: int| 0 <= i < j < after.len() implies text_before(
            #[trigger] after[i],
            #[trigger] after[j],
        ) by {
            if i == at {
                assert(text_before(t, before[at as int]));
                if j - 1 > at {
                    law_text_order_transitive(t, before[at as int], before[j - 1]);
                }
            } else if j == at {
            } else {
                let x = if i < at {
                    i
                } else {
                    i - 1
                };
                let y = if j < at {
                    j
                } else {
                    j - 1
                };
                assert(after[i] == before[x]);
                assert(after[j] == before[y]);
            }
        }
        assert(!before.contains(t)) by {
            if before.contains(t) {
                let k = choose|k: int| 0 <= k < before.len() && before[k] == t;
                law_text_order_total(t, t);
                if k > at {
                    assert(text_before(before[at as int], before[k]));
                    law_text_order_transitive(t, before[at as int], t);
                }
            }
        }
        assert(is_first(more, item)) by {
            assert(more[seen.len() as int] == item);
            assert forall|i: int| 0 <= i < seen.len() implies (#[trigger] more[i]).path.text()
                != t by {
                assert(before.contains(seen[i].path.text()));
            }
        }
        assert forall|i: int| 0 <= i < now.len() implies is_first(more, #[trigger] now[i]) by {
            if i < at {
                assert(now[i] == models[i]);
            } else if i > at {
                assert(now[i] == models[i - 1]);
            }
        }
        assert forall|k: int| 0 <= k < more.len() implies after.contains(
            (#[trigger] more[k]).path.text(),
        ) by {
            if k < seen.len() {
                assert(more[k] == seen[k]);
                let x = choose|x: int| 0 <= x < before.len() && before[x] == seen[k].path.text();
                assert(after[if x < at {
                    x
                } else {
                    x + 1
                }] == seen[k].path.text());
            } else {
                assert(after[at as int] == t);
            }
        }
    }
}

/// The first reference with a text stays the first one.
proof fn lemma_first_stays(list: Seq<RefModel>, more: RefModel, item: RefModel)
    requires
        is_first(list, item),
    ensures
        is_first(list.push(more), item),
{
    let k = choose|k: int|
        0 <= k < list.len() && #[trigger] list[k] == item && forall|i: int|
            0 <= i < k ==> (#[trigger] list[i]).path.text() != item.path.text();
    let longer = list.push(more);
    assert(longer[k] == item);
    assert forall|i: int| 0 <= i < k implies (#[trigger] longer[i]).path.text()
        != item.path.text() by {
        assert(longer[i] == list[i]);
    }
}

/// The references in the first `k` expressions of a list, those of the last one first.
pub open spec fn references_upto(list: Seq<ExprModel>, k: nat) -> Seq<RefModel>
    decreases k,
{
    if k == 0 {
        Seq::empty()
    } else {
        references_of(list[k - 1]) + references_upto(list, (k - 1) as nat)
    }
}

/// How many expressions the first `k` expressions of a list are made of.
pub open spec fn parts_upto(list: Seq<ExprModel>, k: nat) -> nat
    decreases k,
{
    if k == 0 {
        0
    } else {
        parts_upto(list, (k - 1) as nat) + parts(list[k - 1])
    }
}

proof fn lemma_upto_same(a: Seq<ExprModel>, b: Seq<ExprModel>, k: nat)
    requires
        k <= a.len(),
        k <= b.len(),
        forall|i: int| 0 <= i < k ==> a[i] == b[i],
    ensures
        references_upto(a, k) == references_upto(b, k),
        parts_upto(a, k) == parts_upto(b, k),
    decreases k,
{
    if k > 0 {
        lemma_upto_same(a, b, (k - 1) as nat);
    }
}

proof fn lemma_pushed(list: Seq<ExprModel>, e: ExprModel)
    ensures
        references_upto(list.push(e), list.len() + 1) == references_of(e) + references_upto(
            list,
            list.len(),
        ),
        parts_upto(list.push(e), list.len() + 1) == parts_upto(list, list.len()) + parts(e),
{
    lemma_upto_same(list, list.push(e), list.len());
}

impl TypeExpr {
    /// Names the expression, if it is a structure.
    pub fn set_name(&mut self, name: String)
        ensures
            final(self)@ == (match old(self)@ {
                ExprModel::Struct(span, _, repr, fields) => ExprModel::Struct(
                    span,
                    Some(name@),
                    repr,
                    fields,
                ),
                other => other,
            }),
    {
        match self {
            TypeExpr::Struct(ty) => {
                ty.name = Some(name);
            },
            _ => {},
        }
    }

    /// The types that the expression refers to: each once, in the order of their paths, with the
    /// place of the last field's first reference to it.
    pub fn references(&self) -> (items: Vec<TypeRef>)
        ensures
            lists_first(references_of(self@), ref_models(items@)),
    {
        let mut list = Worklist::from_slice(self);
        let mut items: Vec<TypeRef> = Vec::new();
        let ghost all = references_of(self@);
        let ghost mut seen: Seq<RefModel> = Seq::empty();
        proof {
            assert(ref_models(items@) =~= Seq::empty());
            lemma_pushed(Seq::empty(), self@);
            assert(Seq::<ExprModel>::empty().push(self@) =~= waiting(list));
            assert(seen + references_upto(waiting(list), 1) =~= all);
        }
        loop
            invariant
                lists_first(seen, ref_models(items@)),
                seen + references_upto(waiting(list), waiting(list).len()) == all,
                all == references_of(self@),
            ensures
                waiting(list).len() == 0,
                lists_first(seen, ref_models(items@)),
                seen + references_upto(waiting(list), waiting(list).len()) == all,
            decreases parts_upto(waiting(list), waiting(list).len()),
        {
            let ghost before = waiting(list);
            let e = match list.pop() {
                Some(e) => e,
                None => {
                    break;
                },
            };
            let ghost left = waiting(list);
            let ghost rest = references_upto(left, left.len());
            proof {
                lemma_pushed(left, e@);
                assert(before =~= left.push(e@));
                assert(seen + (references_of(e@) + rest) == all);
            }
            match e {
                TypeExpr::Primitive(_, _) => {
                    assert(references_of(e@) + rest =~= rest);
                },
                TypeExpr::Ptr(ty) => {
                    list.push(&ty.pointee);
                    proof {
                        lemma_pushed(left, ty.pointee@);
                    }
                },
                TypeExpr::Array(ty) => {
                    list.push(&ty.elem);
                    proof {
                        lemma_pushed(left, ty.elem@);
                    }
                },
                TypeExpr::Struct(ty) => {
                    let ghost fields = field_exprs(ty.fields@);
                    proof {
                        lemma_struct_view(*ty);
                        assert(field_references(fields, 0) + rest =~= rest);
                    }
                    let mut i: usize = 0;
                    while i < ty.fields.len()
                        invariant
                            i <= ty.fields@.len() == fields.len(),
                            fields == field_exprs(ty.fields@),
                            rest == references_upto(left, left.len()),
                            references_upto(waiting(list), waiting(list).len())
                                == field_references(fields, i as nat) + rest,
                            parts_upto(waiting(list), waiting(list).len()) == parts_upto(
                                left,
                                left.len(),
                            ) + field_parts(fields, i as nat),
                        decreases ty.fields@.len() - i,
                    {
                        let ghost now = waiting(list);
                        list.push(&ty.fields[i].ty);
                        proof {
                            lemma_pushed(now, ty.fields@[i as int].ty@);
                            assert(fields[i as int].ty == ty.fields@[i as int].ty@);
                            assert(references_of(fields[i as int].ty) + (field_references(
                                fields,
                                i as nat,
                            ) + rest) =~= field_references(fields, (i + 1) as nat) + rest);
                        }
                        i += 1;
                    }
                },
                TypeExpr::Ref(span, path) => {
                    insert_reference(&mut items, *span, path, Ghost(seen));
                    proof {
                        let item = RefModel { span: *span, path: path@ };
                        assert(seen.push(item) + rest =~= seen + (seq![item] + rest));
                        seen = seen.push(item);
                    }
                },
            }
        }
        assert(seen + references_upto(waiting(list), 0) =~= seen);
        items
    }
}

// RESOLUTION
// ================================================================================================

/// What a path leads to.
pub enum SymbolResolution {
    /// An item of the same module.
    Local(u32),
    /// A path that is to be looked up in turn, and where it is written.
    External(SourceSpan, Path),
    /// An item of some module.
    Exact(GlobalItemIndex),
    /// A module.
    Module(Path),
    /// A procedure.
    MastRoot,
}

/// Why a type expression has no type.
#[derive(Clone, Copy, PartialEq, Eq, Structural, Debug)]
pub enum SymbolResolutionError {
    /// Expressions are nested too deep.
    TypeExpressionDepthExceeded { span: SourceSpan, max_depth: usize },
    /// A path leads to something that is no type.
    InvalidSymbolType { span: SourceSpan },
    /// A path leads nowhere.
    UndefinedSymbol { span: SourceSpan },
    /// The representation of a structure does not admit its fields.
    InvalidStruct { span: SourceSpan },
}

/// What a resolver found under a path.
pub ghost enum Found {
    Local(u32),
    External(SourceSpan, SymbolPath),
    Exact(GlobalItemIndex),
    NoType,
}

impl SymbolResolution {
    pub open spec fn view(&self) -> Found {
        match self {
            SymbolResolution::Local(id) => Found::Local(*id),
            SymbolResolution::External(span, path) => Found::External(*span, path@),
            SymbolResolution::Exact(gid) => Found::Exact(*gid),
            SymbolResolution::Module(_) => Found::NoType,
            SymbolResolution::MastRoot => Found::NoType,
        }
    }
}

/// A question to a resolver, and its answer; none if the resolver gave up.
pub ghost enum Exchange {
    Path(SourceSpan, SymbolPath, Option<Found>),
    Local(SourceSpan, u32, Resolved),
    Global(SourceSpan, GlobalItemIndex, Resolved),
}

pub open spec fn found<E>(res: Result<SymbolResolution, E>) -> Option<Found> {
    match res {
        Ok(resolution) => Some(resolution@),
        Err(_) => None,
    }
}

pub open spec fn local_answer<E>(res: Result<Option<Type>, E>) -> Resolved {
    match res {
        Ok(Some(ty)) => Resolved::Type(ty@),
        Ok(None) => Resolved::Undefined,
        Err(_) => Resolved::Refused,
    }
}

pub open spec fn global_answer<E>(res: Result<Type, E>) -> Resolved {
    match res {
        Ok(ty) => Resolved::Type(ty@),
        Err(_) => Resolved::Refused,
    }
}

/// What looks types up by their paths. What it answers is up to it; each question that it is asked
/// counts as one, with its answer, in the order in which they come.
pub trait TypeResolver<E> {
    /// The questions that it was asked so far, with its answers.
    open spec fn asked(&self) -> Seq<Exchange> {
        arbitrary()
    }

    /// The resolver's own error for a failure of resolution.
    fn resolve_local_failed(&self, err: SymbolResolutionError) -> E;

    /// The type that an item of some module declares.
    fn get_type(&mut self, context: SourceSpan, gid: GlobalItemIndex) -> (res: Result<Type, E>)
        ensures
            final(self).asked() == old(self).asked().push(
                Exchange::Global(context, gid, global_answer(res)),
            ),
    ;

    /// The type that an item of the current module declares.
    fn get_local_type(&mut self, context: SourceSpan, id: u32) -> (res: Result<Option<Type>, E>)
        ensures
            final(self).asked() == old(self).asked().push(
                Exchange::Local(context, id, local_answer(res)),
            ),
    ;

    /// What a path leads to.
    fn resolve_type_ref(&mut self, span: SourceSpan, path: &Path) -> (res: Result<
        SymbolResolution,
        E,
    >)
        ensures
            final(self).asked() == old(self).asked().push(Exchange::Path(span, path@, found(res))),
    ;
}

/// What is to be done about a path that was looked up.
pub enum RefStep {
    AskLocal(u32),
    AskGlobal(GlobalItemIndex),
    LookUp(SourceSpan, Path),
    Undefined,
    NoType,
}

/// Decides what is to be done about a path that was looked up. A path that leads to itself is not
/// defined yet.
pub fn ref_step(current: &Path, found: SymbolResolution) -> (step: RefStep)
    ensures
        match found {
            SymbolResolution::Local(id) => step == RefStep::AskLocal(id),
            SymbolResolution::Exact(gid) => step == RefStep::AskGlobal(gid),
            SymbolResolution::External(span, path) => if path@ == current@ {
                step == RefStep::Undefined
            } else {
                step == RefStep::LookUp(span, path)
            },
            SymbolResolution::Module(_) => step == RefStep::NoType,
            SymbolResolution::MastRoot => step == RefStep::NoType,
        },
{
    match found {
        SymbolResolution::Local(id) => RefStep::AskLocal(id),
        SymbolResolution::Exact(gid) => RefStep::AskGlobal(gid),
        SymbolResolution::External(span, path) => {
            if path.same_as(current) {
                RefStep::Undefined
            } else {
                RefStep::LookUp(span, path)
            }
        },
        SymbolResolution::Module(_) => RefStep::NoType,
        SymbolResolution::MastRoot => RefStep::NoType,
    }
}

/// What resolving an expression comes to.
pub ghost enum Resolved {
    Type(TypeModel),
    /// A type that it refers to is not defined yet.
    Undefined,
    /// The resolver gave up.
    Refused,
    /// A path, which is written at a place, leads to something that is no type.
    NoType(SourceSpan),
    /// The expression at a place is nested too deep.
    TooDeep(SourceSpan),
    /// The representation of the structure at a place does not admit its fields.
    InvalidStruct(SourceSpan),
    /// A question that was to be asked was not.
    Unasked,
}

/// What following a path comes to, by the exchanges from `at` on, and where they end: the path is
/// looked up, then the paths that it leads to, until one leads to itself, to an item, whose type is
/// asked for, or to something else.
pub open spec fn followed(span: SourceSpan, path: SymbolPath, log: Seq<Exchange>, at: nat) -> (
    Resolved,
    nat,
)
    decreases log.len() - at,
{
    if at >= log.len() {
        (Resolved::Unasked, at)
    } else {
        match log[at as int] {
            Exchange::Path(s, p, answer) => if s != span || p != path {
                (Resolved::Unasked, at)
            } else {
                match answer {
                    None => (Resolved::Refused, at + 1),
                    Some(Found::NoType) => (Resolved::NoType(span), at + 1),
                    Some(Found::External(next_span, next)) => if next == path {
                        (Resolved::Undefined, at + 1)
                    } else {
                        followed(next_span, next, log, at + 1)
                    },
                    Some(Found::Local(id)) => if at + 1 >= log.len() {
                        (Resolved::Unasked, at)
                    } else {
                        match log[(at + 1) as int] {
                            Exchange::Local(s, i, ty) => if s == span && i == id {
                                (ty, at + 2)
                            } else {
                                (Resolved::Unasked, at)
                            },
                            _ => (Resolved::Unasked, at),
                        }
                    },
                    Some(Found::Exact(gid)) => if at + 1 >= log.len() {
                        (Resolved::Unasked, at)
                    } else {
                        match log[(at + 1) as int] {
                            Exchange::Global(s, g, ty) => if s == span && g == gid {
                                (ty, at + 2)
                            } else {
                                (Resolved::Unasked, at)
                            },
                            _ => (Resolved::Unasked, at),
                        }
                    },
                }
            },
            _ => (Resolved::Unasked, at),
        }
    }
}

/// What following a path came to, told of the reference that the path was found in.
pub open spec fn told_of(outcome: Resolved, span: SourceSpan) -> Resolved {
    match outcome {
        Resolved::NoType(_) => Resolved::NoType(span),
        other => other,
    }
}

/// What resolving an expression at a depth comes to, by the exchanges from `at` on, and where they
/// end. References are followed in the order in which they are written.
pub open spec fn resolved(e: ExprModel, depth: nat, answers: Seq<Exchange>, at: nat) -> (
    Resolved,
    nat,
)
    decreases e, 0nat,
{
    if depth > MAX_TYPE_EXPR_NESTING {
        (Resolved::TooDeep(span_of(e)), at)
    } else {
        match e {
            ExprModel::Ref(span, path) => {
                let (outcome, next) = followed(span, path, answers, at);
                (told_of(outcome, span), next)
            },
            ExprModel::Primitive(_, ty) => (Resolved::Type(ty), at),
            ExprModel::Array(_, elem, arity) => match resolved(*elem, depth + 1, answers, at) {
                (Resolved::Type(ty), next) => (
                    Resolved::Type(TypeModel::Array(Box::new(ty), arity)),
                    next,
                ),
                other => other,
            },
            ExprModel::Ptr(_, _, pointee) => match resolved(*pointee, depth + 1, answers, at) {
                (Resolved::Type(ty), next) => (
                    Resolved::Type(TypeModel::Ptr(AddressSpace::Byte, Box::new(ty))),
                    next,
                ),
                other => other,
            },
            ExprModel::Struct(span, name, repr, fields) => {
                let (list, stop, next) = resolved_fields(
                    fields,
                    depth + 1,
                    answers,
                    at,
                    fields.len(),
                );
                match stop {
                    Some(stop) => (stop, next),
                    None => match laid_out(name, repr, list) {
                        Some(layout) => (Resolved::Type(TypeModel::Struct(layout)), next),
                        None => (Resolved::InvalidStruct(span), next),
                    },
                }
            },
        }
    }
}

/// What resolving the first `k` fields comes to: their types, or what stopped it.
pub open spec fn resolved_fields(
    fields: Seq<FieldExpr>,
    depth: nat,
    answers: Seq<Exchange>,
    at: nat,
    k: nat,
) -> (Seq<NamedModel>, Option<Resolved>, nat)
    decreases fields, k,
{
    if k == 0 || k > fields.len() {
        (Seq::empty(), None, at)
    } else {
        let (list, stop, next) = resolved_fields(fields, depth, answers, at, (k - 1) as nat);
        match stop {
            Some(_) => (list, stop, next),
            None => match resolved(fields[k - 1].ty, depth, answers, next) {
                (Resolved::Type(ty), next) => (
                    list.push(NamedModel { name: Some(fields[k - 1].name), ty }),
                    None,
                    next,
                ),
                (stop, next) => (list, Some(stop), next),
            },
        }
    }
}

/// An expression that refers to other types.
pub open spec fn has_references(e: ExprModel) -> bool
    decreases e, 0nat,
{
    match e {
        ExprModel::Ref(_, _) => true,
        ExprModel::Primitive(_, _) => false,
        ExprModel::Array(_, elem, _) => has_references(*elem),
        ExprModel::Ptr(_, _, pointee) => has_references(*pointee),
        ExprModel::Struct(_, _, _, fields) => fields_have_references(fields, fields.len()),
    }
}

pub open spec fn fields_have_references(fields: Seq<FieldExpr>, k: nat) -> bool
    decreases fields, k,
{
    if k == 0 || k > fields.len() {
        false
    } else {
        fields_have_references(fields, (k - 1) as nat) || has_references(fields[k - 1].ty)
    }
}

/// An expression without references resolves to the same type whatever the resolver was asked.
pub proof fn law_resolution_without_references(
    e: ExprModel,
    depth: nat,
    a: Seq<Exchange>,
    b: Seq<Exchange>,
    at: nat,
)
    requires
        !has_references(e),
    ensures
        resolved(e, depth, a, at) == resolved(e, depth, b, at),
        resolved(e, depth, a, at).1 == at,
    decreases e, 0nat,
{
    match e {
        ExprModel::Ref(_, _) => {},
        ExprModel::Primitive(_, _) => {},
        ExprModel::Array(_, elem, _) => {
            law_resolution_without_references(*elem, depth + 1, a, b, at);
        },
        ExprModel::Ptr(_, _, pointee) => {
            law_resolution_without_references(*pointee, depth + 1, a, b, at);
        },
        ExprModel::Struct(_, _, _, fields) => {
            lemma_fields_without_references(fields, depth + 1, a, b, at, fields.len());
        },
    }
}

proof fn lemma_fields_without_references(
    fields: Seq<FieldExpr>,
    depth: nat,
    a: Seq<Exchange>,
    b: Seq<Exchange>,
    at: nat,
    k: nat,
)
    requires
        k <= fields.len(),
        !fields_have_references(fields, k),
    ensures
        resolved_fields(fields, depth, a, at, k) == resolved_fields(fields, depth, b, at, k),
        resolved_fields(fields, depth, a, at, k).2 == at,
    decreases fields, k,
{
    if k > 0 {
        lemma_fields_without_references(fields, depth, a, b, at, (k - 1) as nat);
        law_resolution_without_references(fields[k - 1].ty, depth, a, b, at);
    }
}

/// A path is followed forwards.
proof fn lemma_followed_in_order(span: SourceSpan, path: SymbolPath, a: Seq<Exchange>, at: nat)
    ensures
        at <= followed(span, path, a, at).1,
        followed(span, path, a, at).1 <= at || followed(span, path, a, at).1 <= a.len(),
    decreases a.len() - at,
{
    if at < a.len() {
        if let Exchange::Path(_, _, Some(Found::External(next_span, next))) = a[at as int] {
            lemma_followed_in_order(next_span, next, a, at + 1);
        }
    }
}

/// What following a path comes to depends on the exchanges that it takes only.
proof fn lemma_followed_same(
    span: SourceSpan,
    path: SymbolPath,
    a: Seq<Exchange>,
    i: nat,
    b: Seq<Exchange>,
    j: nat,
)
    requires
        followed(span, path, a, i).0 != Resolved::Unasked,
        followed(span, path, a, i).1 <= a.len(),
        j + (followed(span, path, a, i).1 - i) <= b.len(),
        forall|k: int|
            i <= k < followed(span, path, a, i).1 ==> #[trigger] a[k] == b[j + k - i],
    ensures
        followed(span, path, b, j) == (
            followed(span, path, a, i).0,
            (j + (followed(span, path, a, i).1 - i)) as nat,
        ),
    decreases a.len() - i,
{
    lemma_followed_in_order(span, path, a, i);
    if i < a.len() {
        if let Exchange::Path(_, _, answer) = a[i as int] {
            if let Some(Found::External(next_span, next)) = answer {
                if next != path {
                    lemma_followed_in_order(next_span, next, a, i + 1);
                    assert(a[i as int] == b[j + i - i]);
                    assert forall|k: int| i + 1 <= k < followed(next_span, next, a, i + 1).1 implies
                        #[trigger] a[k] == b[(j + 1) + k - (i + 1)] by {
                        assert(a[k] == b[j + k - i]);
                    }
                    lemma_followed_same(next_span, next, a, i + 1, b, j + 1);
                } else {
                    assert(a[i as int] == b[j + i - i]);
                }
            } else {
                assert(a[i as int] == b[j + i - i]);
                if followed(span, path, a, i).1 == i + 2 {
                    assert(a[(i + 1) as int] == b[j + (i + 1) - i]);
                }
            }
        }
    }
}

/// Answers are taken in order.
proof fn lemma_answers_in_order(e: ExprModel, depth: nat, a: Seq<Exchange>, at: nat)
    ensures
        at <= resolved(e, depth, a, at).1,
    decreases e, 0nat,
{
    match e {
        ExprModel::Array(_, elem, _) => lemma_answers_in_order(*elem, depth + 1, a, at),
        ExprModel::Ptr(_, _, pointee) => lemma_answers_in_order(*pointee, depth + 1, a, at),
        ExprModel::Struct(_, _, _, fields) => lemma_field_answers_in_order(
            fields,
            depth + 1,
            a,
            at,
            fields.len(),
        ),
        ExprModel::Ref(span, path) => lemma_followed_in_order(span, path, a, at),
        _ => {},
    }
}

proof fn lemma_field_answers_in_order(
    fields: Seq<FieldExpr>,
    depth: nat,
    a: Seq<Exchange>,
    at: nat,
    k: nat,
)
    ensures
        at <= resolved_fields(fields, depth, a, at, k).2,
    decreases fields, k,
{
    if 0 < k <= fields.len() {
        lemma_field_answers_in_order(fields, depth, a, at, (k - 1) as nat);
        lemma_answers_in_order(
            fields[k - 1].ty,
            depth,
            a,
            resolved_fields(fields, depth, a, at, (k - 1) as nat).2,
        );
    }
}

/// What an expression resolves to depends on the answers that it takes only.
proof fn lemma_same_answers(
    e: ExprModel,
    depth: nat,
    a: Seq<Exchange>,
    i: nat,
    b: Seq<Exchange>,
    j: nat,
)
    requires
        resolved(e, depth, a, i).0 != Resolved::Unasked,
        resolved(e, depth, a, i).1 <= a.len(),
        j + (resolved(e, depth, a, i).1 - i) <= b.len(),
        forall|k: int| i <= k < resolved(e, depth, a, i).1 ==> #[trigger] a[k] == b[j + k - i],
    ensures
        resolved(e, depth, b, j) == (
            resolved(e, depth, a, i).0,
            (j + (resolved(e, depth, a, i).1 - i)) as nat,
        ),
    decreases e, 0nat,
{
    if depth <= MAX_TYPE_EXPR_NESTING {
        match e {
            ExprModel::Ref(span, path) => lemma_followed_same(span, path, a, i, b, j),
            ExprModel::Primitive(_, _) => {},
            ExprModel::Array(_, elem, _) => lemma_same_answers(*elem, depth + 1, a, i, b, j),
            ExprModel::Ptr(_, _, pointee) => lemma_same_answers(*pointee, depth + 1, a, i, b, j),
            ExprModel::Struct(_, _, _, fields) => lemma_same_field_answers(
                fields,
                depth + 1,
                a,
                i,
                b,
                j,
                fields.len(),
            ),
        }
    }
}

proof fn lemma_same_field_answers(
    fields: Seq<FieldExpr>,
    depth: nat,
    a: Seq<Exchange>,
    i: nat,
    b: Seq<Exchange>,
    j: nat,
    k: nat,
)
    requires
        k <= fields.len(),
        resolved_fields(fields, depth, a, i, k).1 != Some(Resolved::Unasked),
        resolved_fields(fields, depth, a, i, k).2 <= a.len(),
        j + (resolved_fields(fields, depth, a, i, k).2 - i) <= b.len(),
        forall|x: int|
            i <= x < resolved_fields(fields, depth, a, i, k).2 ==> #[trigger] a[x] == b[j + x - i],
    ensures
        resolved_fields(fields, depth, b, j, k) == (
            resolved_fields(fields, depth, a, i, k).0,
            resolved_fields(fields, depth, a, i, k).1,
            (j + (resolved_fields(fields, depth, a, i, k).2 - i)) as nat,
        ),
    decreases fields, k,
{
    if k > 0 {
        let before = resolved_fields(fields, depth, a, i, (k - 1) as nat);
        lemma_field_answers_in_order(fields, depth, a, i, (k - 1) as nat);
        lemma_answers_in_order(fields[k - 1].ty, depth, a, before.2);
        lemma_same_field_answers(fields, depth, a, i, b, j, (k - 1) as nat);
        if before.1 is None {
            let next = (j + (before.2 - i)) as nat;
            assert forall|x: int| before.2 <= x < resolved(
                fields[k - 1].ty,
                depth,
                a,
                before.2,
            ).1 implies #[trigger] a[x] == b[next + x - before.2] by {
                assert(a[x] == b[j + x - i]);
            }
            lemma_same_answers(fields[k - 1].ty, depth, a, before.2, b, next);
        }
    }
}

/// Why resolution stopped: with an error of the resolver, or with one of the expression's own.
pub enum Fault<E> {
    Resolver(E),
    Local(SymbolResolutionError),
}

/// A result of resolution is what was said of the expression.
pub open spec fn is_outcome<E>(res: Result<Option<Type>, Fault<E>>, outcome: Resolved) -> bool {
    match res {
        Ok(Some(ty)) => outcome == Resolved::Type(ty@),
        Ok(None) => outcome == Resolved::Undefined,
        Err(Fault::Resolver(_)) => outcome == Resolved::Refused,
        Err(Fault::Local(e)) => match e {
            SymbolResolutionError::TypeExpressionDepthExceeded { span, max_depth } => outcome
                == Resolved::TooDeep(span) && max_depth == MAX_TYPE_EXPR_NESTING,
            SymbolResolutionError::InvalidStruct { span } => outcome == Resolved::InvalidStruct(span),
            SymbolResolutionError::InvalidSymbolType { span } => outcome == Resolved::NoType(span),
            SymbolResolutionError::UndefinedSymbol { span: _ } => false,
        },
    }
}

/// What following a path that is written at a place came to.
pub open spec fn ref_outcome<E>(
    res: Result<Option<Type>, Fault<E>>,
    span: SourceSpan,
) -> Resolved {
    match res {
        Ok(Some(ty)) => Resolved::Type(ty@),
        Ok(None) => Resolved::Undefined,
        Err(Fault::Resolver(_)) => Resolved::Refused,
        Err(Fault::Local(_)) => Resolved::NoType(span),
    }
}

/// Paths are not followed for ever: so many exchanges are not counted.
pub open spec fn is_endless(log: Seq<Exchange>) -> bool {
    log.len() >= u64::MAX
}

/// An expression resolved to `outcome` by the exchanges `log`, and no others.
pub open spec fn answered(
    e: ExprModel,
    depth: nat,
    log: Seq<Exchange>,
    outcome: Resolved,
) -> bool {
    is_endless(log) || resolved(e, depth, log, 0) == (outcome, log.len())
}

/// What was asked between two states of a resolver.
pub open spec fn asks(before: Seq<Exchange>, after: Seq<Exchange>, log: Seq<Exchange>) -> bool {
    after == before + log
}

/// The first `k` fields resolved, and their references were answered by `answers`.
pub open spec fn fields_answered(
    fields: Seq<FieldExpr>,
    depth: nat,
    answers: Seq<Exchange>,
    k: nat,
    list: Seq<NamedModel>,
) -> bool {
    is_endless(answers) || resolved_fields(fields, depth, answers, 0, k) == (
        list,
        None::<Resolved>,
        answers.len(),
    )
}

proof fn lemma_next_field(
    fields: Seq<FieldExpr>,
    depth: nat,
    a: Seq<Exchange>,
    k: nat,
    list: Seq<NamedModel>,
    b: Seq<Exchange>,
    outcome: Resolved,
)
    requires
        k < fields.len(),
        fields_answered(fields, depth, a, k, list),
        answered(fields[k as int].ty, depth, b, outcome),
        outcome != Resolved::Unasked,
    ensures
        is_endless(a + b) || resolved_fields(fields, depth, a + b, 0, k + 1) == (match outcome {
            Resolved::Type(ty) => (
                list.push(NamedModel { name: Some(fields[k as int].name), ty }),
                None::<Resolved>,
                (a + b).len(),
            ),
            stop => (list, Some(stop), (a + b).len()),
        }),
{
    if !is_endless(a + b) {
        lemma_same_field_answers(fields, depth, a, 0, a + b, 0, k);
        lemma_same_answers(fields[k as int].ty, depth, b, 0, a + b, a.len());
    }
}

proof fn lemma_stopped(
    fields: Seq<FieldExpr>,
    depth: nat,
    a: Seq<Exchange>,
    k: nat,
    n: nat,
)
    requires
        k <= n <= fields.len(),
        resolved_fields(fields, depth, a, 0, k).1 is Some,
    ensures
        resolved_fields(fields, depth, a, 0, n) == resolved_fields(fields, depth, a, 0, k),
    decreases n - k,
{
    if k < n {
        lemma_stopped(fields, depth, a, k, (n - 1) as nat);
    }
}

impl TypeExpr {
    /// Where the expression is written.
    pub fn span(&self) -> (span: SourceSpan)
        ensures
            span == span_of(self@),
    {
        match self {
            TypeExpr::Primitive(span, _) => *span,
            TypeExpr::Ptr(ty) => ty.span,
            TypeExpr::Array(ty) => ty.span,
            TypeExpr::Struct(ty) => ty.span,
            TypeExpr::Ref(span, _) => *span,
        }
    }

    /// Follows a path until it leads to a type, to nothing, or to something else.
    fn resolve_ref<E, R: TypeResolver<E>>(span: SourceSpan, path: &Path, resolver: &mut R) -> (res:
        Result<Option<Type>, Fault<E>>)
        ensures
            res matches Err(Fault::Local(e)) ==> e == (SymbolResolutionError::InvalidSymbolType {
                span,
            }),
            exists|log: Seq<Exchange>| #[trigger]
                asks(old(resolver).asked(), final(resolver).asked(), log) && (is_endless(log)
                    || told_of(followed(span, path@, log, 0).0, span) == ref_outcome(res, span)
                    && followed(span, path@, log, 0).1 == log.len()),
    {
        let mut current = path.copy();
        let mut at = span;
        let mut hops: u64 = 0;
        let ghost before = resolver.asked();
        let ghost mut log = Seq::<Exchange>::empty();
        assert(asks(before, resolver.asked(), log)) by {
            assert(before + log =~= before);
        }
        assert(leads_to(span, path@, log, at, current@));
        while hops < u64::MAX
            invariant
                before == old(resolver).asked(),
                asks(before, resolver.asked(), log),
                log.len() == hops,
                leads_to(span, path@, log, at, current@),
            decreases u64::MAX - hops,
        {
            let ghost was = log;
            let looked_up = resolver.resolve_type_ref(at, &current);
            let ghost question = Exchange::Path(at, current@, found(looked_up));
            proof {
                log = log.push(question);
                assert(resolver.asked() =~= before + log);
                assert(asks(before, resolver.asked(), log));
            }
            let answer = match looked_up {
                Ok(answer) => answer,
                Err(e) => {
                    assert(was + seq![question] =~= log);
                    return Err(Fault::Resolver(e));
                },
            };
            match ref_step(&current, answer) {
                RefStep::AskLocal(id) => {
                    let told = resolver.get_local_type(at, id);
                    let ghost second = Exchange::Local(at, id, local_answer(told));
                    proof {
                        let all = log.push(second);
                        assert(resolver.asked() =~= before + all);
                        assert(was + seq![question, second] =~= all);
                        assert(asks(before, resolver.asked(), all));
                    }
                    return match told {
                        Ok(ty) => Ok(ty),
                        Err(e) => Err(Fault::Resolver(e)),
                    };
                },
                RefStep::AskGlobal(gid) => {
                    let told = resolver.get_type(at, gid);
                    let ghost second = Exchange::Global(at, gid, global_answer(told));
                    proof {
                        let all = log.push(second);
                        assert(resolver.asked() =~= before + all);
                        assert(was + seq![question, second] =~= all);
                        assert(asks(before, resolver.asked(), all));
                    }
                    return match told {
                        Ok(ty) => Ok(Some(ty)),
                        Err(e) => Err(Fault::Resolver(e)),
                    };
                },
                RefStep::LookUp(next_span, next) => {
                    proof {
                        lemma_leads_further(
                            span,
                            path@,
                            was,
                            at,
                            current@,
                            next_span,
                            next@,
                        );
                    }
                    at = next_span;
                    current = next;
                },
                RefStep::Undefined => {
                    assert(was + seq![question] =~= log);
                    return Ok(None);
                },
                RefStep::NoType => {
                    assert(was + seq![question] =~= log);
                    return Err(Fault::Local(SymbolResolutionError::InvalidSymbolType { span }));
                },
            }
            hops += 1;
        }
        assert(is_endless(log));
        Ok(None)
    }

    /// Resolves the expression where it stands below `depth` others.
    ///
    /// What the resolver is asked, and what becomes of its answers, are fixed; an expression without
    /// references asks nothing.
    pub fn resolve_type_with_depth<E, R: TypeResolver<E>>(&self, resolver: &mut R, depth: usize) -> (
    res: Result<Option<Type>, Fault<E>>)
        ensures
            depth > MAX_TYPE_EXPR_NESTING || !has_references(self@) ==> *final(resolver) == *old(
                resolver,
            ),
            exists|log: Seq<Exchange>, outcome: Resolved| #[trigger]
                answered(self@, depth as nat, log, outcome) && is_outcome(res, outcome) && asks(
                    old(resolver).asked(),
                    final(resolver).asked(),
                    log,
                ),
        decreases self,
    {
        let ghost none = Seq::<Exchange>::empty();
        let ghost before = resolver.asked();
        assert(before + none =~= before);
        if depth > MAX_TYPE_EXPR_NESTING {
            assert(answered(self@, depth as nat, none, Resolved::TooDeep(span_of(self@))));
            return Err(
                Fault::Local(
                    SymbolResolutionError::TypeExpressionDepthExceeded {
                        span: self.span(),
                        max_depth: MAX_TYPE_EXPR_NESTING,
                    },
                ),
            );
        }
        match self {
            TypeExpr::Ref(span, path) => {
                let res = TypeExpr::resolve_ref(*span, path, resolver);
                proof {
                    let outcome = ref_outcome(res, *span);
                    let log = choose|log: Seq<Exchange>| #[trigger]
                        asks(before, resolver.asked(), log) && (is_endless(log) || told_of(
                            followed(*span, path@, log, 0).0,
                            *span,
                        ) == ref_outcome(res, *span) && followed(*span, path@, log, 0).1
                            == log.len());
                    assert(answered(self@, depth as nat, log, outcome));
                    assert(is_outcome(res, outcome));
                }
                res
            },
            TypeExpr::Primitive(_, ty) => {
                assert(answered(self@, depth as nat, none, Resolved::Type(ty@)));
                Ok(Some(ty.copy()))
            },
            TypeExpr::Array(ty) => {
                let res = ty.elem.resolve_type_with_depth(resolver, depth + 1);
                let ghost (log, outcome) = choose|log: Seq<Exchange>, outcome: Resolved|
                    #[trigger]
                    answered(ty.elem@, (depth + 1) as nat, log, outcome) && is_outcome(
                        res,
                        outcome,
                    ) && asks(before, resolver.asked(), log);
                match res {
                    Ok(Some(elem)) => {
                        let array = Type::Array { elem: Box::new(elem), len: ty.arity };
                        assert(answered(self@, depth as nat, log, Resolved::Type(array@)));
                        Ok(Some(array))
                    },
                    other => {
                        assert(answered(self@, depth as nat, log, outcome));
                        other
                    },
                }
            },
            TypeExpr::Ptr(ty) => {
                let res = ty.pointee.resolve_type_with_depth(resolver, depth + 1);
                let ghost (log, outcome) = choose|log: Seq<Exchange>, outcome: Resolved|
                    #[trigger]
                    answered(ty.pointee@, (depth + 1) as nat, log, outcome) && is_outcome(
                        res,
                        outcome,
                    ) && asks(before, resolver.asked(), log);
                match res {
                    Ok(Some(pointee)) => {
                        let ptr = Type::Ptr {
                            addrspace: AddressSpace::Byte,
                            pointee: Box::new(pointee),
                        };
                        assert(answered(self@, depth as nat, log, Resolved::Type(ptr@)));
                        Ok(Some(ptr))
                    },
                    other => {
                        assert(answered(self@, depth as nat, log, outcome));
                        other
                    },
                }
            },
            TypeExpr::Struct(ty) => ty.resolve_with_depth(resolver, depth),
        }
    }

    /// Resolves the expression to a type. `Ok(None)` if a type that it refers to is not defined
    /// yet.
    pub fn resolve_type<E, R: TypeResolver<E>>(&self, resolver: &mut R) -> (res: Result<
        Option<Type>,
        E,
    >)
        ensures
            !has_references(self@) ==> *final(resolver) == *old(resolver),
            exists|log: Seq<Exchange>, outcome: Resolved| #[trigger]
                answered(self@, 0, log, outcome) && asks(
                    old(resolver).asked(),
                    final(resolver).asked(),
                    log,
                ) && match res {
                    Ok(Some(ty)) => outcome == Resolved::Type(ty@),
                    Ok(None) => outcome == Resolved::Undefined,
                    Err(e) => fails_with(*final(resolver), outcome, e),
                },
    {
        let ghost before = resolver.asked();
        let res = self.resolve_type_with_depth(resolver, 0);
        let ghost (log, outcome) = choose|log: Seq<Exchange>, outcome: Resolved| #[trigger]
            answered(self@, 0, log, outcome) && is_outcome(res, outcome) && asks(
                before,
                resolver.asked(),
                log,
            );
        match res {
            Ok(ty) => Ok(ty),
            Err(Fault::Resolver(e)) => {
                assert(fails_with(*resolver, outcome, e));
                Err(e)
            },
            Err(Fault::Local(err)) => {
                let e = resolver.resolve_local_failed(err);
                assert(is_own_error(*resolver, err, e));
                assert(fails_with(*resolver, outcome, e));
                Err(e)
            },
        }
    }
}

/// An error is the resolver's own for a failure of resolution.
pub open spec fn is_own_error<E, R: TypeResolver<E>>(
    resolver: R,
    err: SymbolResolutionError,
    e: E,
) -> bool {
    call_ensures(R::resolve_local_failed, (&resolver, err), e)
}

/// An error is the one for an outcome: what the resolver answered, or the resolver's own for the
/// failure that the outcome is.
pub open spec fn fails_with<E, R: TypeResolver<E>>(resolver: R, outcome: Resolved, e: E) -> bool {
    outcome == Resolved::Refused || exists|err: SymbolResolutionError|
        #[trigger] is_own_error(resolver, err, e) && is_outcome::<E>(
            Err(Fault::Local(err)),
            outcome,
        )
}

/// Following a path by the exchanges `log` leads to `current`, and goes on from there.
spec fn leads_to(
    span: SourceSpan,
    path: SymbolPath,
    log: Seq<Exchange>,
    at: SourceSpan,
    current: SymbolPath,
) -> bool {
    forall|more: Seq<Exchange>|
        followed(span, path, #[trigger] (log + more), 0) == followed(
            at,
            current,
            log + more,
            log.len(),
        )
}

proof fn lemma_leads_further(
    span: SourceSpan,
    path: SymbolPath,
    log: Seq<Exchange>,
    at: SourceSpan,
    current: SymbolPath,
    next_span: SourceSpan,
    next: SymbolPath,
)
    requires
        leads_to(span, path, log, at, current),
        next != current,
    ensures
        leads_to(
            span,
            path,
            log.push(Exchange::Path(at, current, Some(Found::External(next_span, next)))),
            next_span,
            next,
        ),
{
    let question = Exchange::Path(at, current, Some(Found::External(next_span, next)));
    let longer = log.push(question);
    assert forall|more: Seq<Exchange>| followed(span, path, #[trigger] (longer + more), 0)
        == followed(next_span, next, longer + more, longer.len()) by {
        let tail = seq![question] + more;
        assert(longer + more =~= log + tail);
        assert(followed(span, path, log + tail, 0) == followed(at, current, log + tail, log.len()));
        assert((log + tail)[log.len() as int] == question);
    }
}

/// A field of a structure without references has none.
proof fn lemma_field_without_references(fields: Seq<FieldExpr>, i: nat, k: nat)
    requires
        i < k <= fields.len(),
        !fields_have_references(fields, k),
    ensures
        !has_references(fields[i as int].ty),
    decreases k,
{
    if i + 1 < k {
        lemma_field_without_references(fields, i, (k - 1) as nat);
    }
}

impl StructType {
    fn resolve_with_depth<E, R: TypeResolver<E>>(&self, resolver: &mut R, depth: usize) -> (res:
        Result<Option<Type>, Fault<E>>)
        requires
            depth <= MAX_TYPE_EXPR_NESTING,
        ensures
            !has_references(TypeExpr::Struct(*self)@) ==> *final(resolver) == *old(resolver),
            exists|log: Seq<Exchange>, outcome: Resolved| #[trigger]
                answered(TypeExpr::Struct(*self)@, depth as nat, log, outcome) && is_outcome(
                    res,
                    outcome,
                ) && asks(old(resolver).asked(), final(resolver).asked(), log),
        decreases self,
    {
        let ghost e = TypeExpr::Struct(*self)@;
        let ghost fields = field_exprs(self.fields@);
        let ghost d = (depth + 1) as nat;
        let ghost mut trace = Seq::<Exchange>::empty();
        let ghost before = resolver.asked();
        proof {
            lemma_struct_view(*self);
            assert(before + trace =~= before);
        }
        let mut list: Vec<NamedType> = Vec::new();
        assert(named_models(list@) =~= Seq::empty());
        let mut i: usize = 0;
        while i < self.fields.len()
            invariant
                i <= self.fields@.len() == fields.len(),
                fields == field_exprs(self.fields@),
                depth <= MAX_TYPE_EXPR_NESTING,
                d == depth + 1,
                e == TypeExpr::Struct(*self)@,
                e == ExprModel::Struct(self.span, name_model(self.name), self.repr, fields),
                before == old(resolver).asked(),
                asks(before, resolver.asked(), trace),
                !has_references(e) ==> *resolver == *old(resolver),
                fields_answered(fields, d, trace, i as nat, named_models(list@)),
            decreases self.fields@.len() - i,
        {
            let field = &self.fields[i];
            assert(decreases_to!(*self => self.fields));
            assert(fields[i as int] == field@);
            let ghost earlier = named_models(list@);
            let ghost now = resolver.asked();
            let res = field.ty.resolve_type_with_depth(resolver, depth + 1);
            let ghost (log, outcome) = choose|log: Seq<Exchange>, outcome: Resolved|
                #[trigger]
                answered(field.ty@, (depth + 1) as nat, log, outcome) && is_outcome(
                    res,
                    outcome,
                ) && asks(now, resolver.asked(), log);
            proof {
                if !has_references(e) {
                    lemma_field_without_references(fields, i as nat, fields.len());
                }
                lemma_next_field(fields, d, trace, i as nat, earlier, log, outcome);
                assert(resolver.asked() =~= before + (trace + log));
                trace = trace + log;
            }
            match res {
                Ok(Some(ty)) => {
                    let next = NamedType { name: Some(field.name.clone()), ty };
                    list.push(next);
                    assert(named_models(list@) =~= earlier.push(next@));
                },
                other => {
                    proof {
                        if !is_endless(trace) {
                            lemma_stopped(fields, d, trace, (i + 1) as nat, fields.len());
                        }
                        assert(answered(e, depth as nat, trace, outcome));
                    }
                    return other;
                },
            }
            i += 1;
        }
        match StructLayout::from_parts(copy_name(&self.name), self.repr, list) {
            Some(layout) => {
                assert(answered(
                    e,
                    depth as nat,
                    trace,
                    Resolved::Type(TypeModel::Struct(layout@)),
                ));
                Ok(Some(Type::Struct(Box::new(layout))))
            },
            None => {
                assert(answered(e, depth as nat, trace, Resolved::InvalidStruct(self.span)));
                Err(Fault::Local(SymbolResolutionError::InvalidStruct { span: self.span }))
            },
        }
    }
}

// COPYING
// ================================================================================================

impl TypeExpr {
    /// A copy of the expression.
    pub fn copy(&self) -> (copy: TypeExpr)
        ensures
            copy@ == self@,
        decreases self,
    {
        match self {
            TypeExpr::Primitive(span, ty) => TypeExpr::Primitive(*span, ty.copy()),
            TypeExpr::Ptr(ty) => TypeExpr::Ptr(
                PointerType {
                    span: ty.span,
                    pointee: Box::new(ty.pointee.copy()),
                    addrspace: ty.addrspace,
                },
            ),
            TypeExpr::Array(ty) => TypeExpr::Array(
                ArrayType { span: ty.span, elem: Box::new(ty.elem.copy()), arity: ty.arity },
            ),
            TypeExpr::Struct(ty) => {
                let copy = ty.copy();
                proof {
                    lemma_struct_view(copy);
                    lemma_struct_view(*ty);
                }
                TypeExpr::Struct(copy)
            },
            TypeExpr::Ref(span, path) => TypeExpr::Ref(*span, path.copy()),
        }
    }
}

impl StructType {
    fn copy(&self) -> (copy: StructType)
        ensures
            copy.span == self.span,
            name_model(copy.name) == name_model(self.name),
            copy.repr == self.repr,
            field_exprs(copy.fields@) == field_exprs(self.fields@),
        decreases self,
    {
        let mut fields: Vec<StructField> = Vec::new();
        let mut i: usize = 0;
        while i < self.fields.len()
            invariant
                i <= self.fields@.len(),
                fields@.len() == i,
                forall|k: int| 0 <= k < i ==> (#[trigger] fields@[k])@ == self.fields@[k]@,
            decreases self.fields@.len() - i,
        {
            let field = &self.fields[i];
            assert(decreases_to!(*self => self.fields));
            fields.push(
                StructField { span: field.span, name: field.name.clone(), ty: field.ty.copy() },
            );
            i += 1;
        }
        assert(field_exprs(fields@) =~= field_exprs(self.fields@));
        StructType { span: self.span, name: copy_name(&self.name), repr: self.repr, fields }
    }
}

// WRITING TYPES DOWN
// ================================================================================================

/// A type that can be written down: no part of it is unknown, empty, or a floating-point number.
pub open spec fn representable(ty: TypeModel) -> bool
    decreases ty, 0nat,
{
    match ty {
        TypeModel::Unknown | TypeModel::Never | TypeModel::F64 => false,
        TypeModel::Array(elem, _) => representable(*elem),
        TypeModel::Struct(layout) => fields_representable(layout.fields, layout.fields.len()),
        TypeModel::Ptr(_, pointee) => representable(*pointee),
        TypeModel::List(elem, _) => representable(*elem),
        _ => true,
    }
}

pub open spec fn fields_representable(fields: Seq<crate::types::FieldModel>, k: nat) -> bool
    decreases fields, k,
{
    if k == 0 || k > fields.len() {
        true
    } else {
        fields_representable(fields, (k - 1) as nat) && representable(fields[k - 1].ty)
    }
}

/// How a type is written down: functions are pointers, lists are byte pointers, and wide integers
/// are arrays of limbs. Fields are numbered.
pub open spec fn expr_of(ty: TypeModel) -> ExprModel
    decreases ty, 0nat,
{
    match ty {
        TypeModel::Array(elem, len) => ExprModel::Array(
            SourceSpan::unknown_span(),
            Box::new(expr_of(*elem)),
            len,
        ),
        TypeModel::Struct(layout) => ExprModel::Struct(
            SourceSpan::unknown_span(),
            None,
            TypeRepr::Default,
            field_exprs_of(layout.fields, layout.fields.len()),
        ),
        TypeModel::Ptr(addrspace, pointee) => ExprModel::Ptr(
            SourceSpan::unknown_span(),
            Some(addrspace),
            Box::new(expr_of(*pointee)),
        ),
        TypeModel::Function(_, _, _) => ExprModel::Ptr(
            SourceSpan::unknown_span(),
            None,
            Box::new(ExprModel::Primitive(SourceSpan::unknown_span(), TypeModel::Felt)),
        ),
        TypeModel::List(elem, _) => ExprModel::Ptr(
            SourceSpan::unknown_span(),
            Some(AddressSpace::Byte),
            Box::new(expr_of(*elem)),
        ),
        TypeModel::I128 | TypeModel::U128 => ExprModel::Array(
            SourceSpan::unknown_span(),
            Box::new(ExprModel::Primitive(SourceSpan::unknown_span(), TypeModel::U32)),
            4,
        ),
        TypeModel::I64 | TypeModel::U64 => ExprModel::Array(
            SourceSpan::unknown_span(),
            Box::new(ExprModel::Primitive(SourceSpan::unknown_span(), TypeModel::U32)),
            2,
        ),
        other => ExprModel::Primitive(SourceSpan::unknown_span(), other),
    }
}

pub open spec fn field_exprs_of(fields: Seq<crate::types::FieldModel>, k: nat) -> Seq<FieldExpr>
    decreases fields, k,
{
    if k == 0 || k > fields.len() {
        Seq::empty()
    } else {
        field_exprs_of(fields, (k - 1) as nat).push(
            FieldExpr {
                span: SourceSpan::unknown_span(),
                name: "field"@ + decimal((k - 1) as nat),
                ty: expr_of(fields[k - 1].ty),
            },
        )
    }
}

proof fn lemma_fields_representable(fields: Seq<crate::types::FieldModel>, k: nat, n: nat)
    requires
        k < n <= fields.len(),
        fields_representable(fields, n),
    ensures
        representable(fields[k as int].ty),
    decreases n,
{
    if k + 1 < n {
        lemma_fields_representable(fields, k, (n - 1) as nat);
    }
}

impl TypeExpr {
    /// A primitive type.
    pub fn primitive(ty: Type) -> (e: TypeExpr)
        ensures
            e@ == ExprModel::Primitive(SourceSpan::unknown_span(), ty@),
    {
        TypeExpr::Primitive(SourceSpan::unknown(), ty)
    }

    /// Writes a type down.
    pub fn from_type(ty: &Type) -> (e: TypeExpr)
        requires
            representable(ty@),
        ensures
            e@ == expr_of(ty@),
        decreases ty,
    {
        assert(Type::U32@ == TypeModel::U32);
        assert(Type::Felt@ == TypeModel::Felt);
        match ty {
            Type::Array { elem, len } => TypeExpr::Array(
                ArrayType::new(TypeExpr::from_type(elem), *len),
            ),
            Type::Struct(layout) => {
                let ty = StructType::from_layout(layout);
                proof {
                    lemma_struct_view(ty);
                }
                TypeExpr::Struct(ty)
            },
            Type::Ptr { addrspace, pointee } => TypeExpr::Ptr(
                PointerType::new(TypeExpr::from_type(pointee)).with_address_space(*addrspace),
            ),
            Type::Function(_) => TypeExpr::Ptr(PointerType::new(TypeExpr::primitive(Type::Felt))),
            Type::List { elem, elem_text: _ } => TypeExpr::Ptr(
                PointerType::new(TypeExpr::from_type(elem)).with_address_space(AddressSpace::Byte),
            ),
            Type::I128 | Type::U128 => TypeExpr::Array(
                ArrayType::new(TypeExpr::primitive(Type::U32), 4),
            ),
            Type::I64 | Type::U64 => TypeExpr::Array(
                ArrayType::new(TypeExpr::primitive(Type::U32), 2),
            ),
            other => TypeExpr::primitive(other.copy()),
        }
    }
}

impl PointerType {
    /// A pointer in the default address space.
    pub fn new(pointee: TypeExpr) -> (ty: PointerType)
        ensures
            *ty.pointee == pointee,
            ty.addrspace is None,
            ty.span == SourceSpan::unknown_span(),
    {
        PointerType { span: SourceSpan::unknown(), pointee: Box::new(pointee), addrspace: None }
    }

    pub fn with_span(self, span: SourceSpan) -> (ty: PointerType)
        ensures
            ty == (PointerType { span, ..self }),
    {
        PointerType { span, pointee: self.pointee, addrspace: self.addrspace }
    }

    pub fn with_address_space(self, addrspace: AddressSpace) -> (ty: PointerType)
        ensures
            ty == (PointerType { addrspace: Some(addrspace), ..self }),
    {
        PointerType { span: self.span, pointee: self.pointee, addrspace: Some(addrspace) }
    }

    /// The address space that was given, else that of elements.
    pub fn address_space(&self) -> (addrspace: AddressSpace)
        ensures
            addrspace == (match self.addrspace {
                Some(addrspace) => addrspace,
                None => AddressSpace::Element,
            }),
    {
        match self.addrspace {
            Some(addrspace) => addrspace,
            None => AddressSpace::Element,
        }
    }
}

impl ArrayType {
    pub fn new(elem: TypeExpr, arity: usize) -> (ty: ArrayType)
        ensures
            *ty.elem == elem,
            ty.arity == arity,
            ty.span == SourceSpan::unknown_span(),
    {
        ArrayType { span: SourceSpan::unknown(), elem: Box::new(elem), arity }
    }

    pub fn with_span(self, span: SourceSpan) -> (ty: ArrayType)
        ensures
            ty == (ArrayType { span, ..self }),
    {
        ArrayType { span, elem: self.elem, arity: self.arity }
    }
}

impl StructType {
    /// A structure in the default representation.
    pub fn new(name: Option<String>, fields: Vec<StructField>) -> (ty: StructType)
        ensures
            ty == (StructType {
                span: SourceSpan::unknown_span(),
                name,
                repr: TypeRepr::Default,
                fields,
            }),
    {
        StructType { span: SourceSpan::unknown(), name, repr: TypeRepr::Default, fields }
    }

    pub fn with_repr(self, repr: TypeRepr) -> (ty: StructType)
        ensures
            ty == (StructType { repr, ..self }),
    {
        StructType { span: self.span, name: self.name, repr, fields: self.fields }
    }

    pub fn with_span(self, span: SourceSpan) -> (ty: StructType)
        ensures
            ty == (StructType { span, ..self }),
    {
        StructType { span, name: self.name, repr: self.repr, fields: self.fields }
    }

    fn from_layout(layout: &StructLayout) -> (ty: StructType)
        requires
            fields_representable(layout@.fields, layout@.fields.len()),
        ensures
            ty.span == SourceSpan::unknown_span(),
            ty.name is None,
            ty.repr == TypeRepr::Default,
            field_exprs(ty.fields@) == field_exprs_of(layout@.fields, layout@.fields.len()),
        decreases layout,
    {
        let mut fields: Vec<StructField> = Vec::new();
        let mut i: usize = 0;
        assert(field_exprs(fields@) =~= Seq::empty());
        while i < layout.fields.len()
            invariant
                i <= layout.fields@.len() == layout@.fields.len(),
                fields_representable(layout@.fields, layout@.fields.len()),
                field_exprs(fields@) == field_exprs_of(layout@.fields, i as nat),
            decreases layout.fields@.len() - i,
        {
            let ghost before = field_exprs(fields@);
            assert(layout@.fields[i as int] == layout.fields@[i as int]@);
            assert(decreases_to!(*layout => layout.fields));
            proof {
                lemma_fields_representable(layout@.fields, i as nat, layout@.fields.len());
            }
            let mut name = String::from_str("field");
            push_decimal(&mut name, i as u64);
            let field = StructField {
                span: SourceSpan::unknown(),
                name,
                ty: TypeExpr::from_type(&layout.fields[i].ty),
            };
            fields.push(field);
            assert(field_exprs(fields@) =~= before.push(field@));
            i += 1;
        }
        StructType::new(None, fields)
    }
}

/// What a procedure takes and returns, as it is written.
pub struct FunctionType {
    pub span: SourceSpan,
    pub cc: CallConv,
    pub args: Vec<TypeExpr>,
    pub results: Vec<TypeExpr>,
}

impl FunctionType {
    pub fn new(cc: CallConv, args: Vec<TypeExpr>, results: Vec<TypeExpr>) -> (ty: FunctionType)
        ensures
            ty == (FunctionType { span: SourceSpan::unknown_span(), cc, args, results }),
    {
        FunctionType { span: SourceSpan::unknown(), cc, args, results }
    }

    pub fn with_span(self, span: SourceSpan) -> (ty: FunctionType)
        ensures
            ty == (FunctionType { span, ..self }),
    {
        FunctionType { span, cc: self.cc, args: self.args, results: self.results }
    }
}

/// An expression has references if and only if some are listed for it.
pub proof fn law_references_are_listed(e: ExprModel)
    ensures
        has_references(e) <==> references_of(e).len() > 0,
    decreases e, 0nat,
{
    match e {
        ExprModel::Array(_, elem, _) => law_references_are_listed(*elem),
        ExprModel::Ptr(_, _, pointee) => law_references_are_listed(*pointee),
        ExprModel::Struct(_, _, _, fields) => lemma_field_references_listed(fields, fields.len()),
        _ => {},
    }
}

proof fn lemma_field_references_listed(fields: Seq<FieldExpr>, k: nat)
    requires
        k <= fields.len(),
    ensures
        fields_have_references(fields, k) <==> field_references(fields, k).len() > 0,
    decreases fields, k,
{
    if k > 0 {
        lemma_field_references_listed(fields, (k - 1) as nat);
        law_references_are_listed(fields[k - 1].ty);
    }
}

/// The expression for an integer resolves, whatever the resolver says, to a type of the size of the
/// integer that is made of integers of at most four bytes, of field elements or of itself.
pub proof fn law_integer_expressions_keep_the_size(ty: TypeModel, answers: Seq<Exchange>)
    requires
        ty.is_integer(),
    ensures
        resolved(expr_of(ty), 0, answers, 0) matches (Resolved::Type(t), next) && next == 0 && t.size_in_bits()
            == ty.size_in_bits() && (t == ty || (t matches TypeModel::Array(elem, _)
            && *elem == TypeModel::U32)),
        !has_references(expr_of(ty)),
{
    let word = ExprModel::Primitive(SourceSpan::unknown_span(), TypeModel::U32);
    assert(resolved(word, 1, answers, 0) == (Resolved::Type(TypeModel::U32), 0nat));
    assert(!has_references(word));
    assert(TypeModel::U32.size_in_bits() == Some(32nat));
    assert(TypeModel::U32.min_alignment() == 4);
    assert(crate::types::align_up(32, 32) == 32);
    assert(crate::types::array_size(32, 4, 2) == Some(64nat));
    assert(crate::types::array_size(32, 4, 4) == Some(128nat));
    if ty is I64 || ty is U64 {
        assert(TypeModel::Array(Box::new(TypeModel::U32), 2).size_in_bits() == Some(64nat));
    } else if ty is I128 || ty is U128 {
        assert(TypeModel::Array(Box::new(TypeModel::U32), 4).size_in_bits() == Some(128nat));
    } else {
        assert(expr_of(ty) == ExprModel::Primitive(SourceSpan::unknown_span(), ty));
    }
}

/// The type that an expression without references stands for lists the fields of a structure in
/// the order in which they are written, under the names that are written.
pub proof fn law_resolved_structures_keep_their_fields(
    span: SourceSpan,
    name: Option<Seq<char>>,
    repr: TypeRepr,
    fields: Seq<FieldExpr>,
    depth: nat,
    answers: Seq<Exchange>,
    at: nat,
)
    ensures
        resolved(ExprModel::Struct(span, name, repr, fields), depth, answers, at).0 matches
            Resolved::Type(ty) ==> (ty matches TypeModel::Struct(layout) && layout.name == name
            && layout.repr == repr && layout.fields.len() == fields.len() && forall|i: int|
            0 <= i < fields.len() ==> (#[trigger] layout.fields[i]).name == Some(fields[i].name)),
{
    let (list, stop, _) = resolved_fields(fields, depth + 1, answers, at, fields.len());
    lemma_fields_stop(fields, depth + 1, answers, at, fields.len());
    if depth <= MAX_TYPE_EXPR_NESTING && stop is None {
        lemma_resolved_names(fields, depth + 1, answers, at, fields.len());
        if laid_out(name, repr, list) is Some {
            assert forall|i: int| 0 <= i < fields.len() implies (
            #[trigger] laid_out(name, repr, list)->0.fields[i]).name == Some(fields[i].name) by {
                crate::types::law_fields_in_order(name, repr, list, i);
            }
            if fields.len() > 0 {
                crate::types::law_fields_in_order(name, repr, list, 0);
            } else {
                assert(crate::types::placed(repr, list, 0) is Some);
            }
        }
    }
}

/// A structure is given up at a field that stands for no type.
proof fn lemma_fields_stop(
    fields: Seq<FieldExpr>,
    depth: nat,
    answers: Seq<Exchange>,
    at: nat,
    k: nat,
)
    requires
        k <= fields.len(),
    ensures
        resolved_fields(fields, depth, answers, at, k).1 matches Some(stop) ==> !(stop is Type),
    decreases k,
{
    if k > 0 {
        lemma_fields_stop(fields, depth, answers, at, (k - 1) as nat);
    }
}

proof fn lemma_resolved_names(
    fields: Seq<FieldExpr>,
    depth: nat,
    answers: Seq<Exchange>,
    at: nat,
    k: nat,
)
    requires
        k <= fields.len(),
        resolved_fields(fields, depth, answers, at, k).1 is None,
    ensures
        ({
            let list = resolved_fields(fields, depth, answers, at, k).0;
            &&& list.len() == k
            &&& forall|i: int| 0 <= i < k ==> (#[trigger] list[i]).name == Some(fields[i].name)
        }),
    decreases k,
{
    if k > 0 {
        lemma_resolved_names(fields, depth, answers, at, (k - 1) as nat);
    }
}

/// A name that stands for another resolves to what the other resolves to, by the answers that come
/// after.
pub proof fn law_aliases_resolve_to_what_they_name(
    span: SourceSpan,
    path: SymbolPath,
    next_span: SourceSpan,
    next: SymbolPath,
    depth: nat,
    log: Seq<Exchange>,
    at: nat,
    ty: TypeModel,
)
    requires
        at < log.len(),
        log[at as int] == Exchange::Path(span, path, Some(Found::External(next_span, next))),
        next != path,
    ensures
        resolved(ExprModel::Ref(span, path), depth, log, at).0 == Resolved::Type(ty) <==> resolved(
            ExprModel::Ref(next_span, next),
            depth,
            log,
            at + 1,
        ).0 == Resolved::Type(ty),
        depth <= MAX_TYPE_EXPR_NESTING ==> resolved(ExprModel::Ref(span, path), depth, log, at).1
            == resolved(ExprModel::Ref(next_span, next), depth, log, at + 1).1,
{
}

/// A name that stands for itself has no type; a name for an item has the type that the resolver says
/// the item has.
pub proof fn law_names_resolve_to_their_items(
    span: SourceSpan,
    path: SymbolPath,
    other: SourceSpan,
    gid: GlobalItemIndex,
    ty: TypeModel,
    depth: nat,
    log: Seq<Exchange>,
    at: nat,
)
    requires
        depth <= MAX_TYPE_EXPR_NESTING,
        at + 1 < log.len(),
    ensures
        log[at as int] == Exchange::Path(span, path, Some(Found::External(other, path))) ==> resolved(
            ExprModel::Ref(span, path),
            depth,
            log,
            at,
        ) == (Resolved::Undefined, at + 1),
        log[at as int] == Exchange::Path(span, path, Some(Found::Exact(gid))) && log[(at + 1) as int]
            == Exchange::Global(span, gid, Resolved::Type(ty)) ==> resolved(
            ExprModel::Ref(span, path),
            depth,
            log,
            at,
        ) == (Resolved::Type(ty), at + 2),
        log[at as int] == Exchange::Path(span, path, None) ==> resolved(
            ExprModel::Ref(span, path),
            depth,
            log,
            at,
        ).0 == Resolved::Refused,
        log[at as int] == Exchange::Path(span, path, Some(Found::NoType)) ==> resolved(
            ExprModel::Ref(span, path),
            depth,
            log,
            at,
        ).0 == Resolved::NoType(span),
{
}

/// How deep an expression is nested.
pub open spec fn expr_depth(e: ExprModel) -> nat
    decreases e, 0nat,
{
    match e {
        ExprModel::Array(_, elem, _) => 1 + expr_depth(*elem),
        ExprModel::Ptr(_, _, pointee) => 1 + expr_depth(*pointee),
        ExprModel::Struct(_, _, _, fields) => if fields.len() == 0 {
            0
        } else {
            1 + fields_depth(fields, fields.len())
        },
        _ => 0,
    }
}

pub open spec fn fields_depth(fields: Seq<FieldExpr>, k: nat) -> nat
    decreases fields, k,
{
    if k == 0 || k > fields.len() {
        0
    } else {
        crate::types::larger(
            fields_depth(fields, (k - 1) as nat),
            expr_depth(fields[k - 1].ty),
        )
    }
}

/// An expression that stands for a type is nested no deeper than is allowed, and one that is nested
/// no deeper is not refused for its depth.
pub proof fn law_depth_is_limited(e: ExprModel, depth: nat, log: Seq<Exchange>, at: nat)
    ensures
        resolved(e, depth, log, at).0 is Type ==> depth + expr_depth(e) <= 256,
        depth + expr_depth(e) <= 256 ==> !(resolved(e, depth, log, at).0 is TooDeep) || has_references(
            e,
        ),
    decreases e, 0nat,
{
    match e {
        ExprModel::Array(_, elem, _) => law_depth_is_limited(*elem, depth + 1, log, at),
        ExprModel::Ptr(_, _, pointee) => law_depth_is_limited(*pointee, depth + 1, log, at),
        ExprModel::Struct(_, _, _, fields) => {
            lemma_fields_stop(fields, depth + 1, log, at, fields.len());
            lemma_fields_depth(fields, depth + 1, log, at, fields.len());
        },
        _ => {},
    }
}

proof fn lemma_fields_depth(
    fields: Seq<FieldExpr>,
    depth: nat,
    log: Seq<Exchange>,
    at: nat,
    k: nat,
)
    requires
        k <= fields.len(),
    ensures
        k > 0 && resolved_fields(fields, depth, log, at, k).1 is None ==> depth + fields_depth(
            fields,
            k,
        ) <= 256,
        depth + fields_depth(fields, k) <= 256 && !fields_have_references(fields, k) ==> !(
        resolved_fields(fields, depth, log, at, k).1 matches Some(stop) && stop is TooDeep),
    decreases fields, k,
{
    if k > 0 {
        lemma_fields_depth(fields, depth, log, at, (k - 1) as nat);
        let next = resolved_fields(fields, depth, log, at, (k - 1) as nat).2;
        law_depth_is_limited(fields[k - 1].ty, depth, log, next);
    }
}

} // verus!
