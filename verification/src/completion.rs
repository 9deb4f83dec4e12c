//! The completion dispatch: which completion routines run for a given
//! analysis of the cursor position.
//!
//! The surrounding tool analyses the source around the cursor and reduces it
//! to an [`IdentCtx`]; running the routines against its semantic model is
//! the tool's business.  The decision made here — which routines, in which
//! order — is pure and is pinned exactly by [`spec_completion_plan`].
use vstd::prelude::*;

verus! {

/// The kind of name reference under the cursor.
#[derive(Clone, Copy, Debug, PartialEq, Eq, Structural)]
pub enum NameRefKind {
    PathLike,
    DotAccess,
    Keyword,
    RecordExpr,
    PatternRef,
}

/// What the analysis of the cursor position found: a fresh name (and
/// whether it is an identifier pattern), a name reference of some kind, a
/// lifetime position, a string literal (and whether an expanded form is
/// available), or an unexpanded attribute (and whether a speculative
/// attribute could be placed under the caret).
#[derive(Clone, Copy, Debug, PartialEq, Eq, Structural)]
pub enum IdentCtx {
    Name { ident_pat: bool },
    NameRef(NameRefKind),
    Lifetime,
    StringLit { expanded: bool },
    UnexpandedAttr { fake_attribute: bool },
}

/// One completion routine of the surrounding tool.
#[derive(Clone, Copy, Debug, PartialEq, Eq, Structural)]
pub enum CompletionRoutine {
    FieldListRecordVariant,
    FieldListTupleVariant,
    TraitImplName,
    TraitImplNameRef,
    ModPath,
    FlyimportPat,
    FlyimportPath,
    FlyimportDot,
    FnParam,
    PatternBinding,
    PatternPath,
    RecordPatternFields,
    RecordExprFields,
    RecordExprFuncUpdate,
    UseStatement,
    Attribute,
    Derive,
    KnownAttributeInput,
    UndottedSelf,
    ExprPath,
    ItemList,
    InferredType,
    TypePath,
    ExprSnippet,
    ItemSnippet,
    VisPath,
    DotAccess,
    Postfix,
    SpecialKeywords,
    Label,
    LifetimeBinding,
    ExternAbi,
    FormatString,
}

/// The routines run for a name-reference context of the given kind, after
/// the two routines that run for every name reference.
pub open spec fn spec_name_ref_plan(kind: NameRefKind) -> Seq<CompletionRoutine> {
    match kind {
        NameRefKind::PathLike => seq![
            CompletionRoutine::Attribute,
            CompletionRoutine::Derive,
            CompletionRoutine::UndottedSelf,
            CompletionRoutine::ExprPath,
            CompletionRoutine::FieldListTupleVariant,
            CompletionRoutine::FlyimportPath,
            CompletionRoutine::ItemList,
            CompletionRoutine::PatternPath,
            CompletionRoutine::InferredType,
            CompletionRoutine::TypePath,
            CompletionRoutine::RecordExprFuncUpdate,
            CompletionRoutine::ExprSnippet,
            CompletionRoutine::ItemSnippet,
            CompletionRoutine::VisPath,
        ],
        NameRefKind::DotAccess => seq![
            CompletionRoutine::FlyimportDot,
            CompletionRoutine::DotAccess,
            CompletionRoutine::Postfix,
        ],
        NameRefKind::Keyword => seq![CompletionRoutine::SpecialKeywords],
        NameRefKind::RecordExpr => seq![CompletionRoutine::RecordExprFields],
        NameRefKind::PatternRef => seq![
            CompletionRoutine::FlyimportPat,
            CompletionRoutine::FnParam,
            CompletionRoutine::PatternBinding,
            CompletionRoutine::RecordPatternFields,
        ],
    }
}

/// The full dispatch: nothing when the analysis produced no context; under
/// an opening-parenthesis trigger character only the visibility-path routine
/// (and only in a path-like name-reference context), to keep `(` from
/// setting off unwanted completion noise; otherwise the routines of the
/// context, in their fixed order.
pub open spec fn spec_completion_plan(ctx: Option<IdentCtx>, trigger: Option<char>) -> Option<
    Seq<CompletionRoutine>,
> {
    match ctx {
        Option::None => None,
        Option::Some(ic) => Some(
            if trigger == Some('(') {
                if ic == IdentCtx::NameRef(NameRefKind::PathLike) {
                    seq![CompletionRoutine::VisPath]
                } else {
                    Seq::empty()
                }
            } else {
                match ic {
                    IdentCtx::Name { ident_pat } => {
                        let base = seq![
                            CompletionRoutine::FieldListRecordVariant,
                            CompletionRoutine::TraitImplName,
                            CompletionRoutine::ModPath,
                        ];
                        if ident_pat {
                            base + seq![
                                CompletionRoutine::FlyimportPat,
                                CompletionRoutine::FnParam,
                                CompletionRoutine::PatternBinding,
                                CompletionRoutine::RecordPatternFields,
                            ]
                        } else {
                            base
                        }
                    },
                    IdentCtx::NameRef(kind) => seq![
                        CompletionRoutine::TraitImplNameRef,
                        CompletionRoutine::UseStatement,
                    ] + spec_name_ref_plan(kind),
                    IdentCtx::Lifetime => seq![
                        CompletionRoutine::Label,
                        CompletionRoutine::LifetimeBinding,
                    ],
                    IdentCtx::StringLit { expanded } => if expanded {
                        seq![CompletionRoutine::ExternAbi, CompletionRoutine::FormatString]
                    } else {
                        Seq::empty()
                    },
                    IdentCtx::UnexpandedAttr { fake_attribute } => if fake_attribute {
                        seq![CompletionRoutine::KnownAttributeInput]
                    } else {
                        Seq::empty()
                    },
                }
            },
        ),
    }
}

/// Main entry point for completion: turns the analysed cursor context and
/// the trigger character into the ordered list of completion routines to
/// run, or nothing when no context could be built.
pub fn completions(ctx: Option<IdentCtx>, trigger_character: Option<char>) -> (r: Option<
    Vec<CompletionRoutine>,
>)
    ensures
        (match r {
            Some(v) => Some(v@),
            None => None,
        }) == spec_completion_plan(ctx, trigger_character),
{
    let ic = match ctx {
        Some(ic) => ic,
        None => {
            return None;
        },
    };
    let mut plan: Vec<CompletionRoutine> = Vec::new();
    // prevent `(` from triggering unwanted completion noise
    if matches!(trigger_character, Some('(')) {
        if ic == IdentCtx::NameRef(NameRefKind::PathLike) {
            plan.push(CompletionRoutine::VisPath);
            proof {
                assert(plan@ =~= seq![CompletionRoutine::VisPath]);
            }
        } else {
            proof {
                assert(plan@ =~= Seq::<CompletionRoutine>::empty());
            }
        }
        return Some(plan);
    }
    match ic {
        IdentCtx::Name { ident_pat } => {
            plan.push(CompletionRoutine::FieldListRecordVariant);
            plan.push(CompletionRoutine::TraitImplName);
            plan.push(CompletionRoutine::ModPath);
            if ident_pat {
                plan.push(CompletionRoutine::FlyimportPat);
                plan.push(CompletionRoutine::FnParam);
                plan.push(CompletionRoutine::PatternBinding);
                plan.push(CompletionRoutine::RecordPatternFields);
            }
        },
        IdentCtx::NameRef(kind) => {
            plan.push(CompletionRoutine::TraitImplNameRef);
            plan.push(CompletionRoutine::UseStatement);
            match kind {
                NameRefKind::PathLike => {
                    plan.push(CompletionRoutine::Attribute);
                    plan.push(CompletionRoutine::Derive);
                    plan.push(CompletionRoutine::UndottedSelf);
                    plan.push(CompletionRoutine::ExprPath);
                    plan.push(CompletionRoutine::FieldListTupleVariant);
                    plan.push(CompletionRoutine::FlyimportPath);
                    plan.push(CompletionRoutine::ItemList);
                    plan.push(CompletionRoutine::PatternPath);
                    plan.push(CompletionRoutine::InferredType);
                    plan.push(CompletionRoutine::TypePath);
                    plan.push(CompletionRoutine::RecordExprFuncUpdate);
                    plan.push(CompletionRoutine::ExprSnippet);
                    plan.push(CompletionRoutine::ItemSnippet);
                    plan.push(CompletionRoutine::VisPath);
                },
                NameRefKind::DotAccess => {
                    plan.push(CompletionRoutine::FlyimportDot);
                    plan.push(CompletionRoutine::DotAccess);
                    plan.push(CompletionRoutine::Postfix);
                },
                NameRefKind::Keyword => {
                    plan.push(CompletionRoutine::SpecialKeywords);
                },
                NameRefKind::RecordExpr => {
                    plan.push(CompletionRoutine::RecordExprFields);
                },
                NameRefKind::PatternRef => {
                    plan.push(CompletionRoutine::FlyimportPat);
                    plan.push(CompletionRoutine::FnParam);
                    plan.push(CompletionRoutine::PatternBinding);
                    plan.push(CompletionRoutine::RecordPatternFields);
                },
            }
        },
        IdentCtx::Lifetime => {
            plan.push(CompletionRoutine::Label);
            plan.push(CompletionRoutine::LifetimeBinding);
        },
        IdentCtx::StringLit { expanded } => {
            if expanded {
                plan.push(CompletionRoutine::ExternAbi);
                plan.push(CompletionRoutine::FormatString);
            }
        },
        IdentCtx::UnexpandedAttr { fake_attribute } => {
            if fake_attribute {
                plan.push(CompletionRoutine::KnownAttributeInput);
            }
        },
    }
    proof {
        assert(plan@ =~= spec_completion_plan(ctx, trigger_character)->Some_0);
    }
    Some(plan)
}

} // verus!
