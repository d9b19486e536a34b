use continuations::types::{
    format_type_scheme_around_name, ArrayType, FunctionType, TupleType, Type, TypeBounds,
    TypeScheme,
};

fn var(n: &str) -> Type {
    Type::TypeVar(n.to_owned())
}

fn sample_function() -> Type {
    // (T, K[8]) -> T
    Type::Function(FunctionType {
        params: vec![
            var("T"),
            Type::Array(ArrayType { base: Box::new(var("K")), length: Some(8) }),
        ],
        value: Box::new(var("T")),
    })
}

#[test]
fn elementary_types_are_elementary() {
    assert!(Type::Bottom.is_elementary());
    assert!(Type::Bool.is_elementary());
    assert!(Type::Int.is_elementary());
    assert!(Type::Fe.is_elementary());
    assert!(Type::String.is_elementary());
    assert!(Type::Col.is_elementary());
    assert!(Type::Expr.is_elementary());
    assert!(Type::Constr.is_elementary());
    assert!(!sample_function().is_elementary());
    assert!(!var("T").is_elementary());
    assert!(!Type::Tuple(TupleType { items: vec![] }).is_elementary());
}

#[test]
fn only_function_types_need_parentheses() {
    assert!(sample_function().needs_parentheses());
    assert!(!Type::Int.needs_parentheses());
    assert!(!var("T").needs_parentheses());
    assert!(!Type::Tuple(TupleType { items: vec![Type::Int] }).needs_parentheses());
}

#[test]
fn contained_type_vars_keep_first_occurrence_order() {
    let t = Type::Tuple(TupleType {
        items: vec![var("B"), sample_function(), var("B"), var("A")],
    });
    let with_reps = t.contained_type_vars_with_repetitions();
    assert_eq!(with_reps, vec!["B", "T", "K", "T", "B", "A"]);
    let unique = t.contained_type_vars();
    assert_eq!(unique, vec!["B", "T", "K", "A"]);
}

#[test]
fn concreteness_and_containment() {
    assert!(Type::Int.is_concrete_type());
    assert!(!sample_function().is_concrete_type());
    assert!(sample_function().contains_type_var("T"));
    assert!(sample_function().contains_type_var("K"));
    assert!(!sample_function().contains_type_var("B"));
}

#[test]
fn substitution_replaces_bound_variables_only() {
    let subs = vec![("T".to_owned(), Type::Int), ("K".to_owned(), var("U"))];
    let mut t = sample_function();
    t.substitute_type_vars(&subs);
    let expected = Type::Function(FunctionType {
        params: vec![
            Type::Int,
            Type::Array(ArrayType { base: Box::new(var("U")), length: Some(8) }),
        ],
        value: Box::new(Type::Int),
    });
    assert_eq!(t, expected);
}

#[test]
fn substitution_is_not_applied_inside_replacements() {
    // T -> K[], K -> Int: the K introduced for T must stay.
    let subs = vec![
        ("T".to_owned(), Type::Array(ArrayType { base: Box::new(var("K")), length: None })),
        ("K".to_owned(), Type::Int),
    ];
    let r = var("T").substitute_type_vars_to(&subs);
    assert_eq!(r, Type::Array(ArrayType { base: Box::new(var("K")), length: None }));
}

#[test]
fn duplicate_builds_an_equal_tree() {
    let t = sample_function();
    assert_eq!(t.duplicate(), t);
}

#[test]
fn type_bounds_and_schemes() {
    let b = TypeBounds::new(vec![("T".to_owned(), vec!["Ord".to_owned()])]);
    assert_eq!(b.len(), 1);
    assert!(!b.is_empty());
    let s = TypeScheme::from_type(Type::Int);
    assert!(s.vars.is_empty());
    assert_eq!(s.ty, Type::Int);
}

#[test]
fn simplify_renames_a_single_variable_to_t() {
    let scheme = TypeScheme {
        vars: TypeBounds::new(vec![("alpha".to_owned(), vec![])]),
        ty: Type::Array(ArrayType { base: Box::new(var("alpha")), length: None }),
    };
    let simplified = scheme.simplify_type_vars();
    assert_eq!(simplified.vars.bounds, vec![("T".to_owned(), vec![])]);
    assert_eq!(
        simplified.ty,
        Type::Array(ArrayType { base: Box::new(var("T")), length: None })
    );
}

#[test]
fn simplify_numbers_several_variables() {
    let scheme = TypeScheme {
        vars: TypeBounds::new(vec![
            ("alpha".to_owned(), vec!["Ord".to_owned()]),
            ("beta".to_owned(), vec![]),
        ]),
        ty: Type::Tuple(TupleType { items: vec![var("beta"), var("alpha"), var("gamma")] }),
    };
    let simplified = scheme.simplify_type_vars();
    assert_eq!(
        simplified.vars.bounds,
        vec![("T1".to_owned(), vec!["Ord".to_owned()]), ("T2".to_owned(), vec![])]
    );
    // Unbound variables are left alone.
    assert_eq!(
        simplified.ty,
        Type::Tuple(TupleType { items: vec![var("T2"), var("T1"), var("gamma")] })
    );
}

#[test]
fn type_vars_render_with_bounds() {
    let empty = TypeScheme { vars: TypeBounds::new(vec![]), ty: Type::Int };
    assert_eq!(empty.type_vars_to_string(), "");
    let scheme = TypeScheme {
        vars: TypeBounds::new(vec![
            ("T1".to_owned(), vec!["Ord".to_owned(), "Eq".to_owned()]),
            ("T2".to_owned(), vec![]),
        ]),
        ty: Type::Int,
    };
    assert_eq!(scheme.type_vars_to_string(), "<T1: Ord + Eq, T2>");
}

#[test]
fn types_render_with_parentheses_where_needed() {
    assert_eq!(Type::Int.render(), "int");
    assert_eq!(Type::Bottom.render(), "!");
    assert_eq!(var("T").render(), "T");
    let tuple = Type::Tuple(TupleType { items: vec![Type::Int, Type::Fe] });
    assert_eq!(tuple.render(), "(int, fe)");
    let function = Type::Function(FunctionType {
        params: vec![
            var("T"),
            Type::Array(ArrayType { base: Box::new(var("K")), length: None }),
        ],
        value: Box::new(Type::Bool),
    });
    assert_eq!(function.render(), "T, K[] -> bool");
    // A function type inside an array is parenthesized.
    let array_of_functions = Type::Array(ArrayType {
        base: Box::new(Type::Function(FunctionType {
            params: vec![var("T")],
            value: Box::new(Type::Int),
        })),
        length: Some(8),
    });
    assert_eq!(array_of_functions.render(), "(T -> int)[8]");
    assert_eq!(format_type_scheme_around_name("foo", &None), " foo");
    let scheme = TypeScheme {
        vars: TypeBounds::new(vec![("T".to_owned(), vec!["Ord".to_owned()])]),
        ty: Type::Array(ArrayType { base: Box::new(var("T")), length: None }),
    };
    assert_eq!(
        format_type_scheme_around_name("id", &Some(scheme)),
        "<T: Ord> id: T[]"
    );
}

#[test]
fn chunk_names_follow_the_base_name() {
    assert_eq!(continuations::chunk_pipeline_name("fib", 0), "fib_chunk_0");
    assert_eq!(continuations::chunk_pipeline_name("fib", 12), "fib_chunk_12");
}
