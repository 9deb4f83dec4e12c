use merge_imports::completion::{completions, CompletionRoutine, IdentCtx, NameRefKind};

#[test]
fn no_context_means_no_completions() {
    assert!(completions(None, None).is_none());
}

#[test]
fn open_paren_trigger_runs_only_the_visibility_routine() {
    let plan = completions(
        Some(IdentCtx::NameRef(NameRefKind::PathLike)),
        Some('('),
    )
    .expect("context present");
    assert_eq!(plan, vec![CompletionRoutine::VisPath]);
    let other = completions(Some(IdentCtx::Lifetime), Some('(')).expect("context present");
    assert!(other.is_empty());
}

#[test]
fn name_context_adds_pattern_routines_only_for_ident_patterns() {
    let plain = completions(Some(IdentCtx::Name { ident_pat: false }), None)
        .expect("context present");
    assert_eq!(
        plain,
        vec![
            CompletionRoutine::FieldListRecordVariant,
            CompletionRoutine::TraitImplName,
            CompletionRoutine::ModPath,
        ]
    );
    let pat = completions(Some(IdentCtx::Name { ident_pat: true }), None)
        .expect("context present");
    assert_eq!(
        pat,
        vec![
            CompletionRoutine::FieldListRecordVariant,
            CompletionRoutine::TraitImplName,
            CompletionRoutine::ModPath,
            CompletionRoutine::FlyimportPat,
            CompletionRoutine::FnParam,
            CompletionRoutine::PatternBinding,
            CompletionRoutine::RecordPatternFields,
        ]
    );
}

#[test]
fn dot_access_runs_the_dot_routines() {
    let plan = completions(Some(IdentCtx::NameRef(NameRefKind::DotAccess)), None)
        .expect("context present");
    assert_eq!(
        plan,
        vec![
            CompletionRoutine::TraitImplNameRef,
            CompletionRoutine::UseStatement,
            CompletionRoutine::FlyimportDot,
            CompletionRoutine::DotAccess,
            CompletionRoutine::Postfix,
        ]
    );
}

#[test]
fn string_literal_needs_an_expanded_form() {
    let with = completions(Some(IdentCtx::StringLit { expanded: true }), None)
        .expect("context present");
    assert_eq!(
        with,
        vec![CompletionRoutine::ExternAbi, CompletionRoutine::FormatString]
    );
    let without = completions(Some(IdentCtx::StringLit { expanded: false }), None)
        .expect("context present");
    assert!(without.is_empty());
}

#[test]
fn path_name_ref_runs_the_full_path_routine_list() {
    let plan = completions(Some(IdentCtx::NameRef(NameRefKind::PathLike)), None)
        .expect("context present");
    assert_eq!(plan.len(), 16);
    assert_eq!(plan[0], CompletionRoutine::TraitImplNameRef);
    assert_eq!(plan[15], CompletionRoutine::VisPath);
}
