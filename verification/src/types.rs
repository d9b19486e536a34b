//! The analyzed type language: elementary types, arrays, tuples, function
//! types and type variables, with type-variable queries and substitution.

use vstd::prelude::*;
use itertools::Itertools;

verus! {

broadcast use vstd::std_specs::vec::axiom_vec_index_decreases;

/// An expression together with its (optional) type scheme.
#[derive(Debug, PartialEq, Eq)]
pub struct TypedExpression<E> {
    pub e: E,
    pub type_scheme: Option<TypeScheme>,
}

/// A type of the analyzed language.
#[derive(Debug, PartialEq, Eq)]
#[verifier::ext_equal]
pub enum Type {
    /// The bottom type, which cannot have a value but is compatible with
    /// all other types.
    Bottom,
    /// Boolean
    Bool,
    /// Integer (arbitrary precision)
    Int,
    /// Field element (unspecified field)
    Fe,
    /// String
    String,
    /// Column
    Col,
    /// Algebraic expression
    Expr,
    /// Polynomial identity or lookup
    Constr,
    Array(ArrayType),
    Tuple(TupleType),
    Function(FunctionType),
    TypeVar(String),
}

/// An array type: base element type and optional fixed length.
#[derive(Debug, PartialEq, Eq)]
#[verifier::ext_equal]
pub struct ArrayType {
    pub base: Box<Type>,
    pub length: Option<u64>,
}

/// A tuple type.
#[derive(Debug, PartialEq, Eq)]
#[verifier::ext_equal]
pub struct TupleType {
    pub items: Vec<Type>,
}

/// A function type: parameter types and result type.
#[derive(Debug, PartialEq, Eq)]
#[verifier::ext_equal]
pub struct FunctionType {
    pub params: Vec<Type>,
    pub value: Box<Type>,
}

/// True for the elementary (non-composite, non-variable) types.
pub open spec fn is_elementary_spec(t: Type) -> bool {
    match t {
        Type::Bottom => true,
        Type::Bool => true,
        Type::Int => true,
        Type::Fe => true,
        Type::String => true,
        Type::Col => true,
        Type::Expr => true,
        Type::Constr => true,
        Type::Array(_) => false,
        Type::Tuple(_) => false,
        Type::Function(_) => false,
        Type::TypeVar(_) => false,
    }
}

/// The type variables contained in a type, in order of occurrence in a
/// left-to-right traversal, with repetitions.
pub open spec fn type_vars_of(t: Type) -> Seq<Seq<char>>
    decreases t,
{
    match t {
        Type::TypeVar(n) => seq![n@],
        Type::Array(a) => type_vars_of(*a.base),
        Type::Tuple(tu) => type_vars_of_list(tu.items, tu.items.len() as int),
        Type::Function(f) => type_vars_of_list(f.params, f.params.len() as int) + type_vars_of(
            *f.value,
        ),
        _ => Seq::empty(),
    }
}

/// The type variables of the first `n` types of a list, concatenated.
pub open spec fn type_vars_of_list(ts: Vec<Type>, n: int) -> Seq<Seq<char>>
    decreases ts, n,
{
    if n <= 0 || n > ts@.len() {
        Seq::empty()
    } else {
        type_vars_of_list(ts, n - 1) + type_vars_of(ts@[n - 1])
    }
}

/// Keeps the first occurrence of each element, preserving order.
pub open spec fn dedup_first(s: Seq<Seq<char>>) -> Seq<Seq<char>>
    decreases s.len(),
{
    if s.len() == 0 {
        Seq::empty()
    } else {
        let d = dedup_first(s.drop_last());
        if s.drop_last().contains(s.last()) {
            d
        } else {
            d.push(s.last())
        }
    }
}

/// The substitute for type variable `n`, if any: the first binding wins.
pub open spec fn subst_lookup(s: Seq<(String, Type)>, n: Seq<char>) -> Option<Type>
    decreases s.len(),
{
    if s.len() == 0 {
        Option::None
    } else if s.first().0@ == n {
        Option::Some(s.first().1)
    } else {
        subst_lookup(s.drop_first(), n)
    }
}

/// Relates a type to its substituted form: every type variable bound by
/// the substitution is replaced (the replacements themselves are not
/// substituted again), everything else is kept.
pub open spec fn is_subst(t: Type, s: Seq<(String, Type)>, r: Type) -> bool
    decreases t,
{
    match t {
        Type::TypeVar(n) => match subst_lookup(s, n@) {
            Option::Some(u) => deep_eq(u, r),
            Option::None => r == t,
        },
        Type::Array(a) => match r {
            Type::Array(ra) => ra.length == a.length && is_subst(*a.base, s, *ra.base),
            _ => false,
        },
        Type::Tuple(tu) => match r {
            Type::Tuple(rt) => rt.items@.len() == tu.items@.len() && forall|i: int|
                0 <= i < tu.items@.len() ==> is_subst(
                    #[trigger] tu.items@[i],
                    s,
                    rt.items@[i],
                ),
            _ => false,
        },
        Type::Function(f) => match r {
            Type::Function(rf) => {
                &&& rf.params@.len() == f.params@.len()
                &&& forall|i: int| 0 <= i < f.params@.len() ==> is_subst(
                    #[trigger] f.params@[i],
                    s,
                    rf.params@[i],
                )
                &&& is_subst(*f.value, s, *rf.value)
            },
            _ => false,
        },
        _ => r == t,
    }
}

/// Structural equality of two types.  Two types can be structurally equal
/// without being equal as values, because a rebuilt list is a fresh list.
pub open spec fn deep_eq(a: Type, b: Type) -> bool
    decreases a,
{
    match a {
        Type::TypeVar(n) => b == a,
        Type::Array(aa) => match b {
            Type::Array(ba) => ba.length == aa.length && deep_eq(*aa.base, *ba.base),
            _ => false,
        },
        Type::Tuple(at) => match b {
            Type::Tuple(bt) => at.items@.len() == bt.items@.len() && forall|i: int|
                0 <= i < at.items@.len() ==> deep_eq(#[trigger] at.items@[i], bt.items@[i]),
            _ => false,
        },
        Type::Function(af) => match b {
            Type::Function(bf) => {
                &&& af.params@.len() == bf.params@.len()
                &&& forall|i: int| 0 <= i < af.params@.len() ==> deep_eq(
                    #[trigger] af.params@[i],
                    bf.params@[i],
                )
                &&& deep_eq(*af.value, *bf.value)
            },
            _ => false,
        },
        _ => b == a,
    }
}

impl Type {
    /// True for the elementary (non-composite, non-variable) types.
    pub fn is_elementary(&self) -> (r: bool)
        ensures
            r == is_elementary_spec(*self),
    {
        match self {
            Type::Bottom | Type::Bool | Type::Int | Type::Fe | Type::String | Type::Expr
            | Type::Col | Type::Constr => true,
            Type::Array(_) | Type::Tuple(_) | Type::Function(_) | Type::TypeVar(_) => false,
        }
    }

    /// Returns true if the type name needs parentheses around it during
    /// formatting when used inside a complex expression.
    pub fn needs_parentheses(&self) -> (r: bool)
        ensures
            r == (*self matches Type::Function(_)),
    {
        match self {
            Type::Function(_) => true,
            _ => false,
        }
    }

    /// A deep copy of the type, structurally equal to the original.
    pub fn duplicate(&self) -> (r: Type)
        ensures
            deep_eq(*self, r),
        decreases *self,
    {
        match self {
            Type::Bottom => Type::Bottom,
            Type::Bool => Type::Bool,
            Type::Int => Type::Int,
            Type::Fe => Type::Fe,
            Type::String => Type::String,
            Type::Col => Type::Col,
            Type::Expr => Type::Expr,
            Type::Constr => Type::Constr,
            Type::TypeVar(n) => Type::TypeVar(n.clone()),
            Type::Array(a) => Type::Array(
                ArrayType { base: Box::new(a.base.duplicate()), length: a.length },
            ),
            Type::Tuple(tu) => Type::Tuple(TupleType { items: duplicate_list(&tu.items) }),
            Type::Function(f) => Type::Function(
                FunctionType {
                    params: duplicate_list(&f.params),
                    value: Box::new(f.value.duplicate()),
                },
            ),
        }
    }

    /// The contained type variables in traversal order, with repetitions.
    pub fn contained_type_vars_with_repetitions(&self) -> (r: Vec<String>)
        ensures
            r@.map_values(|s: String| s@) == type_vars_of(*self),
        decreases *self,
    {
        match self {
            Type::TypeVar(n) => {
                let mut r: Vec<String> = Vec::new();
                r.push(n.clone());
                proof {
                    assert(r@.map_values(|s: String| s@) =~= type_vars_of(*self));
                }
                r
            },
            Type::Array(a) => {
                let r = a.base.contained_type_vars_with_repetitions();
                r
            },
            Type::Tuple(tu) => type_vars_of_vec(&tu.items),
            Type::Function(f) => {
                let mut r = type_vars_of_vec(&f.params);
                let mut tail = f.value.contained_type_vars_with_repetitions();
                let ghost r0 = r@;
                let ghost tail0 = tail@;
                r.append(&mut tail);
                proof {
                    lemma_map_values_add(r0, tail0);
                }
                r
            },
            _ => {
                let r: Vec<String> = Vec::new();
                proof {
                    assert(r@.map_values(|s: String| s@) =~= type_vars_of(*self));
                }
                r
            },
        }
    }

    /// True if the type contains no type variables.
    pub fn is_concrete_type(&self) -> (r: bool)
        ensures
            r == (type_vars_of(*self).len() == 0),
    {
        let vars = self.contained_type_vars_with_repetitions();
        vars.len() == 0
    }

    /// True if the type contains the given type variable.
    pub fn contains_type_var(&self, name: &str) -> (r: bool)
        ensures
            r == type_vars_of(*self).contains(name@),
    {
        let vars = self.contained_type_vars_with_repetitions();
        let target: String = name.to_owned();
        let mut i: usize = 0;
        while i < vars.len()
            invariant
                0 <= i <= vars@.len(),
                target@ == name@,
                vars@.map_values(|s: String| s@) == type_vars_of(*self),
                forall|j: int| 0 <= j < i ==> (#[trigger] vars@[j])@ != name@,
            decreases vars@.len() - i,
        {
            if vars[i] == target {
                proof {
                    assert(type_vars_of(*self)[i as int] == vars@[i as int]@);
                    assert(type_vars_of(*self).contains(name@));
                }
                return true;
            }
            i = i + 1;
        }
        proof {
            assert forall|j: int| 0 <= j < type_vars_of(*self).len() implies type_vars_of(*self)[j]
                != name@ by {
                assert(type_vars_of(*self)[j] == (#[trigger] vars@[j])@);
            }
        }
        false
    }

    /// The contained type variables in order of first occurrence.
    pub fn contained_type_vars(&self) -> (r: Vec<String>)
        ensures
            r@.map_values(|s: String| s@) == dedup_first(type_vars_of(*self)),
    {
        let vars = self.contained_type_vars_with_repetitions();
        unique_strings(vars)
    }

    /// Substitutes all occurrences of the given type variables with the
    /// given types; the first binding of a name wins.  Does not apply the
    /// substitutions inside the replacements.
    pub fn substitute_type_vars(&mut self, substitutions: &Vec<(String, Type)>)
        ensures
            is_subst(*old(self), substitutions@, *final(self)),
    {
        let r = self.substituted(substitutions);
        *self = r;
    }

    /// As `substitute_type_vars`, but by value.
    pub fn substitute_type_vars_to(self, substitutions: &Vec<(String, Type)>) -> (r: Type)
        ensures
            is_subst(self, substitutions@, r),
    {
        let mut s = self;
        s.substitute_type_vars(substitutions);
        s
    }

    /// The substituted form of the type.
    fn substituted(&self, substitutions: &Vec<(String, Type)>) -> (r: Type)
        ensures
            is_subst(*self, substitutions@, r),
        decreases *self,
    {
        match self {
            Type::TypeVar(n) => {
                match lookup_substitution(substitutions, n) {
                    Option::Some(i) => substitutions[i].1.duplicate(),
                    Option::None => Type::TypeVar(n.clone()),
                }
            },
            Type::Array(a) => Type::Array(
                ArrayType { base: Box::new(a.base.substituted(substitutions)), length: a.length },
            ),
            Type::Tuple(tu) => Type::Tuple(
                TupleType { items: substituted_list(&tu.items, substitutions) },
            ),
            Type::Function(f) => Type::Function(
                FunctionType {
                    params: substituted_list(&f.params, substitutions),
                    value: Box::new(f.value.substituted(substitutions)),
                },
            ),
            Type::Bottom => Type::Bottom,
            Type::Bool => Type::Bool,
            Type::Int => Type::Int,
            Type::Fe => Type::Fe,
            Type::String => Type::String,
            Type::Col => Type::Col,
            Type::Expr => Type::Expr,
            Type::Constr => Type::Constr,
        }
    }
}

/// Deep copies of a list of types.
fn duplicate_list(ts: &Vec<Type>) -> (r: Vec<Type>)
    ensures
        r@.len() == ts@.len(),
        forall|j: int| 0 <= j < ts@.len() ==> deep_eq(#[trigger] ts@[j], r@[j]),
    decreases *ts,
{
    let mut r: Vec<Type> = Vec::new();
    let mut i: usize = 0;
    while i < ts.len()
        invariant
            0 <= i <= ts@.len(),
            r@.len() == i,
            forall|j: int| 0 <= j < i ==> deep_eq(#[trigger] ts@[j], r@[j]),
        decreases ts@.len() - i,
    {
        r.push(ts[i].duplicate());
        i = i + 1;
    }
    r
}

/// The substituted forms of a list of types.
fn substituted_list(ts: &Vec<Type>, substitutions: &Vec<(String, Type)>) -> (r: Vec<Type>)
    ensures
        r@.len() == ts@.len(),
        forall|j: int| 0 <= j < ts@.len() ==> is_subst(#[trigger] ts@[j], substitutions@, r@[j]),
    decreases *ts,
{
    let mut r: Vec<Type> = Vec::new();
    let mut i: usize = 0;
    while i < ts.len()
        invariant
            0 <= i <= ts@.len(),
            r@.len() == i,
            forall|j: int| 0 <= j < i ==> is_subst(#[trigger] ts@[j], substitutions@, r@[j]),
        decreases ts@.len() - i,
    {
        r.push(ts[i].substituted(substitutions));
        i = i + 1;
    }
    r
}

/// The type variables of all types in a list, concatenated.
fn type_vars_of_vec(ts: &Vec<Type>) -> (r: Vec<String>)
    ensures
        r@.map_values(|s: String| s@) == type_vars_of_list(*ts, ts@.len() as int),
    decreases *ts,
{
    let mut r: Vec<String> = Vec::new();
    let mut i: usize = 0;
    proof {
        assert(r@.map_values(|s: String| s@) =~= type_vars_of_list(*ts, 0));
    }
    while i < ts.len()
        invariant
            0 <= i <= ts@.len(),
            r@.map_values(|s: String| s@) == type_vars_of_list(*ts, i as int),
        decreases ts@.len() - i,
    {
        let ghost r0 = r@;
        let mut part = ts[i].contained_type_vars_with_repetitions();
        let ghost part0 = part@;
        r.append(&mut part);
        proof {
            lemma_map_values_add(r0, part0);
        }
        i = i + 1;
    }
    r
}

/// The first binding of the given name in the substitution list.
fn lookup_substitution(substitutions: &Vec<(String, Type)>, name: &String) -> (r: Option<usize>)
    ensures
        match r {
            Option::Some(i) => i < substitutions@.len() && substitutions@[i as int].0@ == name@
                && subst_lookup(substitutions@, name@) == Option::Some(
                substitutions@[i as int].1,
            ),
            Option::None => subst_lookup(substitutions@, name@) == Option::<Type>::None,
        },
{
    let mut i: usize = 0;
    proof {
        assert(substitutions@.skip(0) =~= substitutions@);
    }
    while i < substitutions.len()
        invariant
            0 <= i <= substitutions@.len(),
            subst_lookup(substitutions@, name@) == subst_lookup(
                substitutions@.skip(i as int),
                name@,
            ),
            forall|j: int| 0 <= j < i ==> (#[trigger] substitutions@[j]).0@ != name@,
        decreases substitutions@.len() - i,
    {
        if substitutions[i].0 == *name {
            proof {
                assert(substitutions@.skip(i as int).first() == substitutions@[i as int]);
            }
            return Some(i);
        }
        proof {
            assert(substitutions@.skip(i as int).first() == substitutions@[i as int]);
            assert(substitutions@.skip(i as int).drop_first() =~= substitutions@.skip(i as int + 1));
        }
        i = i + 1;
    }
    proof {
        assert(substitutions@.skip(substitutions@.len() as int) =~= Seq::<(String, Type)>::empty());
    }
    None
}

/// Views of a concatenation are the concatenated views.
pub proof fn lemma_map_values_add(a: Seq<String>, b: Seq<String>)
    ensures
        (a + b).map_values(|s: String| s@) == a.map_values(|s: String| s@) + b.map_values(
            |s: String| s@,
        ),
{
    assert((a + b).map_values(|s: String| s@) =~= a.map_values(|s: String| s@) + b.map_values(
        |s: String| s@,
    ));
}

/// Relies on itertools' `unique`: returns the elements that have not been
/// produced before, i.e. keeps the first occurrence of each element,
/// preserving order.
#[verifier::external_body]
fn unique_strings(v: Vec<String>) -> (r: Vec<String>)
    ensures
        r@.map_values(|s: String| s@) == dedup_first(v@.map_values(|s: String| s@)),
{
    v.into_iter().unique().collect()
}

/// Bounds of a set of type variables: each variable with its trait bounds.
#[derive(Debug, PartialEq, Eq)]
pub struct TypeBounds {
    pub bounds: Vec<(String, Vec<String>)>,
}

impl TypeBounds {
    /// A new set of bounds.
    pub fn new(bounds: Vec<(String, Vec<String>)>) -> (r: TypeBounds)
        ensures
            r.bounds == bounds,
    {
        TypeBounds { bounds }
    }

    /// Number of bound type variables.
    pub fn len(&self) -> (r: usize)
        ensures
            r == self.bounds@.len(),
    {
        self.bounds.len()
    }

    /// True if no type variable is bound.
    pub fn is_empty(&self) -> (r: bool)
        ensures
            r == (self.bounds@.len() == 0),
    {
        self.bounds.len() == 0
    }
}

impl Default for TypeBounds {
    /// No bound type variables.
    fn default() -> (r: TypeBounds)
        ensures
            r.bounds@.len() == 0,
    {
        TypeBounds { bounds: Vec::new() }
    }
}

/// A polymorphic type: bound type variables and the type using them.
#[derive(Debug, PartialEq, Eq)]
pub struct TypeScheme {
    /// Type variables and their trait bounds.
    pub vars: TypeBounds,
    /// The actual type (using the type variables from `vars` but
    /// potentially also other type variables).
    pub ty: Type,
}

impl TypeScheme {
    /// A scheme without bound variables around the given type.
    pub fn from_type(value: Type) -> (r: TypeScheme)
        ensures
            r.vars.bounds@.len() == 0,
            r.ty == value,
    {
        TypeScheme { vars: TypeBounds { bounds: Vec::new() }, ty: value }
    }
}


/// The decimal digit characters.
pub open spec fn digit_char(d: int) -> char {
    if d == 0 { '0' }
    else if d == 1 { '1' }
    else if d == 2 { '2' }
    else if d == 3 { '3' }
    else if d == 4 { '4' }
    else if d == 5 { '5' }
    else if d == 6 { '6' }
    else if d == 7 { '7' }
    else if d == 8 { '8' }
    else { '9' }
}

/// The decimal rendering of a number.
pub open spec fn decimal_of(n: nat) -> Seq<char>
    decreases n,
{
    if n < 10 {
        seq![digit_char(n as int)]
    } else {
        decimal_of(n / 10).push(digit_char((n % 10) as int))
    }
}

/// One decimal digit as a string.
fn digit_str(d: u64) -> (r: String)
    requires
        d < 10,
    ensures
        r@ == seq![digit_char(d as int)],
{
    let r: String = if d == 0 { "0".to_owned() }
    else if d == 1 { "1".to_owned() }
    else if d == 2 { "2".to_owned() }
    else if d == 3 { "3".to_owned() }
    else if d == 4 { "4".to_owned() }
    else if d == 5 { "5".to_owned() }
    else if d == 6 { "6".to_owned() }
    else if d == 7 { "7".to_owned() }
    else if d == 8 { "8".to_owned() }
    else { "9".to_owned() };
    proof {
        reveal_strlit("0");
        reveal_strlit("1");
        reveal_strlit("2");
        reveal_strlit("3");
        reveal_strlit("4");
        reveal_strlit("5");
        reveal_strlit("6");
        reveal_strlit("7");
        reveal_strlit("8");
        reveal_strlit("9");
        assert(r@ =~= seq![digit_char(d as int)]);
    }
    r
}

/// A number in decimal.
pub(crate) fn decimal_string(n: u64) -> (r: String)
    ensures
        r@ == decimal_of(n as nat),
    decreases n,
{
    if n < 10 {
        digit_str(n)
    } else {
        let mut s = decimal_string(n / 10);
        let d = digit_str(n % 10);
        let ghost s0 = s@;
        s.append(d.as_str());
        proof {
            assert(s@ =~= s0.push(digit_char((n % 10) as int)));
        }
        s
    }
}

/// The simplified name of the `i`-th of `n` type variables: `T` when it is
/// alone, else `T1`, `T2`, ...
pub open spec fn simplified_name(i: int, n: int) -> Seq<char> {
    if n == 1 {
        "T"@
    } else {
        "T"@ + decimal_of((i + 1) as nat)
    }
}

/// The simplified name of the `i`-th of `n` type variables.
fn simplified_var_name(i: usize, n: usize) -> (r: String)
    requires
        i < n,
    ensures
        r@ == simplified_name(i as int, n as int),
{
    if n == 1 {
        "T".to_owned()
    } else {
        let mut s: String = "T".to_owned();
        let d = decimal_string((i as u64) + 1);
        let ghost s0 = s@;
        s.append(d.as_str());
        proof {
            assert(s@ =~= simplified_name(i as int, n as int));
        }
        s
    }
}

/// A copy of a list of strings.
fn copy_strings(v: &Vec<String>) -> (r: Vec<String>)
    ensures
        r@ == v@,
{
    let mut r: Vec<String> = Vec::new();
    let mut i: usize = 0;
    while i < v.len()
        invariant
            0 <= i <= v@.len(),
            r@.len() == i,
            forall|j: int| 0 <= j < i ==> r@[j] == v@[j],
        decreases v@.len() - i,
    {
        r.push(v[i].clone());
        i = i + 1;
    }
    proof {
        assert(r@ =~= v@);
    }
    r
}

impl TypeScheme {
    /// Returns a new type scheme with type variables renamed to `T1`,
    /// `T2`, ... (or just `T` if it is a single type variable).
    pub fn simplify_type_vars(self) -> (r: TypeScheme)
        requires
            forall|a: int, b: int| 0 <= a < b < self.vars.bounds@.len()
                ==> (#[trigger] self.vars.bounds@[a]).0@ != (#[trigger] self.vars.bounds@[b]).0@,
        ensures
            r.vars.bounds@.len() == self.vars.bounds@.len(),
            forall|i: int| #![trigger r.vars.bounds@[i]] 0 <= i < r.vars.bounds@.len()
                ==> r.vars.bounds@[i].0@ == simplified_name(i, self.vars.bounds@.len() as int)
                    && r.vars.bounds@[i].1@ == self.vars.bounds@[i].1@,
            self.vars.bounds@.len() == 0 ==> r.ty == self.ty,
            self.vars.bounds@.len() > 0 ==> exists|subs: Seq<(String, Type)>|
                {
                    &&& #[trigger] subs.len() == self.vars.bounds@.len()
                    &&& forall|j: int| 0 <= j < subs.len()
                        ==> (#[trigger] subs[j]).0@ == self.vars.bounds@[j].0@
                    &&& forall|j: int| 0 <= j < subs.len() ==> ((#[trigger] subs[j]).1 matches
                        Type::TypeVar(nm) && nm@ == simplified_name(
                        j,
                        self.vars.bounds@.len() as int,
                    ))
                    &&& is_subst(self.ty, subs, r.ty)
                },
    {
        let TypeScheme { vars, ty } = self;
        let n = vars.bounds.len();
        if n == 0 {
            return TypeScheme { vars, ty };
        }
        let mut subs: Vec<(String, Type)> = Vec::new();
        let mut i: usize = 0;
        while i < n
            invariant
                n == vars.bounds@.len(),
                0 <= i <= n,
                subs@.len() == i,
                forall|j: int| 0 <= j < i ==> (#[trigger] subs@[j]).0@ == vars.bounds@[j].0@,
                forall|j: int| 0 <= j < i ==> ((#[trigger] subs@[j]).1 matches Type::TypeVar(nm)
                    && nm@ == simplified_name(j, n as int)),
            decreases n - i,
        {
            let name = vars.bounds[i].0.clone();
            let fresh = simplified_var_name(i, n);
            subs.push((name, Type::TypeVar(fresh)));
            i = i + 1;
        }
        let new_ty = ty.substitute_type_vars_to(&subs);
        let mut new_bounds: Vec<(String, Vec<String>)> = Vec::new();
        let mut i: usize = 0;
        while i < n
            invariant
                n == vars.bounds@.len(),
                0 <= i <= n,
                new_bounds@.len() == i,
                forall|j: int| 0 <= j < i ==> (#[trigger] new_bounds@[j]).0@ == simplified_name(
                    j,
                    n as int,
                ) && new_bounds@[j].1@ == vars.bounds@[j].1@,
            decreases n - i,
        {
            let fresh = simplified_var_name(i, n);
            let kept = copy_strings(&vars.bounds[i].1);
            new_bounds.push((fresh, kept));
            i = i + 1;
        }
        TypeScheme { vars: TypeBounds { bounds: new_bounds }, ty: new_ty }
    }
}


/// Parts joined by a separator.
pub open spec fn join_seq(parts: Seq<Seq<char>>, sep: Seq<char>) -> Seq<char>
    decreases parts.len(),
{
    if parts.len() == 0 {
        Seq::empty()
    } else if parts.len() == 1 {
        parts[0]
    } else {
        parts[0] + sep + join_seq(parts.drop_first(), sep)
    }
}

/// Appending one part appends a separator and the part.
pub proof fn lemma_join_seq_snoc(parts: Seq<Seq<char>>, sep: Seq<char>)
    requires
        parts.len() >= 2,
    ensures
        join_seq(parts, sep) == join_seq(parts.drop_last(), sep) + sep + parts.last(),
    decreases parts.len(),
{
    if parts.len() == 2 {
        assert(parts.drop_last() =~= seq![parts[0]]);
        assert(parts.drop_first() =~= seq![parts[1]]);
        assert(join_seq(parts.drop_first(), sep) == parts.drop_first()[0]);
        assert(parts.drop_first()[0] == parts[1]);
        assert(join_seq(parts.drop_last(), sep) == parts.drop_last()[0]);
        assert(join_seq(parts, sep) == parts[0] + sep + parts[1]);
        assert(parts.last() == parts[1]);
    } else {
        lemma_join_seq_snoc(parts.drop_first(), sep);
        assert(parts.drop_first().drop_last() =~= parts.drop_last().drop_first());
        assert(parts.drop_first().last() == parts.last());
        assert(parts.drop_last()[0] == parts[0]);
        assert(join_seq(parts.drop_last(), sep) == parts[0] + sep + join_seq(
            parts.drop_last().drop_first(),
            sep,
        ));
        let a = parts[0];
        let mid = join_seq(parts.drop_last().drop_first(), sep);
        assert(join_seq(parts, sep) == a + sep + (mid + sep + parts.last()));
        assert(a + sep + (mid + sep + parts.last()) =~= (a + sep + mid) + sep + parts.last());
    }
}

/// One bound variable rendered: its name, and its bounds after a colon.
pub open spec fn bound_display(name: Seq<char>, bounds: Seq<Seq<char>>) -> Seq<char> {
    if bounds.len() == 0 {
        name
    } else {
        name + ": "@ + join_seq(bounds, " + "@)
    }
}

/// The views of a list of strings.
pub open spec fn string_views(s: Seq<String>) -> Seq<Seq<char>> {
    Seq::new(s.len(), |i: int| s[i]@)
}

/// All bound variables rendered, comma-separated.
pub open spec fn type_bounds_display(bs: Seq<(String, Vec<String>)>) -> Seq<char> {
    join_seq(
        Seq::new(bs.len(), |i: int| bound_display(bs[i].0@, string_views(bs[i].1@))),
        ", "@,
    )
}

/// Renders one part list joined by a separator.
fn join_strings(parts: &Vec<String>, sep: &str) -> (r: String)
    ensures
        r@ == join_seq(string_views(parts@), sep@),
{
    let mut r: String = String::new();
    let mut i: usize = 0;
    while i < parts.len()
        invariant
            0 <= i <= parts@.len(),
            r@ == join_seq(string_views(parts@).take(i as int), sep@),
        decreases parts@.len() - i,
    {
        let ghost taken = string_views(parts@).take(i as int);
        if i > 0 {
            r.append(sep);
        }
        r.append(parts[i].as_str());
        proof {
            let taken1 = string_views(parts@).take(i as int + 1);
            assert(taken1.drop_last() =~= taken);
            assert(taken1.last() == parts@[i as int]@);
            if i == 0 {
                assert(taken1 =~= seq![parts@[0]@]);
                assert(r@ =~= join_seq(taken1, sep@));
            } else {
                lemma_join_seq_snoc(taken1, sep@);
            }
        }
        i = i + 1;
    }
    proof {
        assert(string_views(parts@).take(parts@.len() as int) =~= string_views(parts@));
    }
    r
}

impl TypeBounds {
    /// Renders the bound variables: each name with its trait bounds.
    pub fn render(&self) -> (r: String)
        ensures
            r@ == type_bounds_display(self.bounds@),
    {
        let mut parts: Vec<String> = Vec::new();
        let mut i: usize = 0;
        while i < self.bounds.len()
            invariant
                0 <= i <= self.bounds@.len(),
                parts@.len() == i,
                forall|j: int| 0 <= j < i ==> (#[trigger] parts@[j])@ == bound_display(
                    self.bounds@[j].0@,
                    string_views(self.bounds@[j].1@),
                ),
            decreases self.bounds@.len() - i,
        {
            let entry = &self.bounds[i];
            let mut s = entry.0.clone();
            if entry.1.len() > 0 {
                s.append(": ");
                let joined = join_strings(&entry.1, " + ");
                s.append(joined.as_str());
            }
            parts.push(s);
            i = i + 1;
        }
        let r = join_strings(&parts, ", ");
        proof {
            assert(string_views(parts@) =~= Seq::new(
                self.bounds@.len(),
                |i: int| bound_display(self.bounds@[i].0@, string_views(self.bounds@[i].1@)),
            ));
        }
        r
    }
}

/// The rendered form of a scheme's type-variable list: empty without
/// variables, else the bounds in angle brackets.
pub open spec fn type_vars_display(vars: TypeBounds) -> Seq<char> {
    if vars.bounds@.len() == 0 {
        Seq::empty()
    } else {
        "<"@ + type_bounds_display(vars.bounds@) + ">"@
    }
}

impl TypeScheme {
    /// Formats the type variables and bounds part.
    pub fn type_vars_to_string(&self) -> (r: String)
        ensures
            r@ == type_vars_display(self.vars),
    {
        if self.vars.is_empty() {
            let r = String::new();
            r
        } else {
            let mut r: String = "<".to_owned();
            let body = self.vars.render();
            r.append(body.as_str());
            r.append(">");
            proof {
                assert(r@ =~= type_vars_display(self.vars));
            }
            r
        }
    }
}


/// The rendered form of a type.  A function type is parenthesized where it
/// stands inside another type.
pub open spec fn type_display(t: Type) -> Seq<char>
    decreases t, 0int,
{
    match t {
        Type::Bottom => "!"@,
        Type::Bool => "bool"@,
        Type::Int => "int"@,
        Type::Fe => "fe"@,
        Type::String => "string"@,
        Type::Col => "col"@,
        Type::Expr => "expr"@,
        Type::Constr => "constr"@,
        Type::TypeVar(n) => n@,
        Type::Array(a) => type_display_parenthesized(*a.base) + "["@ + (match a.length {
            Option::Some(l) => decimal_of(l as nat),
            Option::None => Seq::empty(),
        }) + "]"@,
        Type::Tuple(tu) => "("@ + join_seq(
            type_display_list(tu.items, tu.items.len() as int),
            ", "@,
        ) + ")"@,
        Type::Function(f) => join_seq(type_display_list(f.params, f.params.len() as int), ", "@)
            + " -> "@ + type_display_parenthesized(*f.value),
    }
}

/// The rendered form of a type, in parentheses where formatting needs them.
pub open spec fn type_display_parenthesized(t: Type) -> Seq<char>
    decreases t, 1int,
{
    if t matches Type::Function(_) {
        "("@ + type_display(t) + ")"@
    } else {
        type_display(t)
    }
}

/// The rendered forms of the first `n` types of a list.
pub open spec fn type_display_list(ts: Vec<Type>, n: int) -> Seq<Seq<char>>
    decreases ts, n,
{
    if n <= 0 || n > ts@.len() {
        Seq::empty()
    } else {
        type_display_list(ts, n - 1).push(type_display(ts@[n - 1]))
    }
}

impl Type {
    /// Renders the type.
    pub fn render(&self) -> (r: String)
        ensures
            r@ == type_display(*self),
        decreases *self, 0int,
    {
        match self {
            Type::Bottom => "!".to_owned(),
            Type::Bool => "bool".to_owned(),
            Type::Int => "int".to_owned(),
            Type::Fe => "fe".to_owned(),
            Type::String => "string".to_owned(),
            Type::Col => "col".to_owned(),
            Type::Expr => "expr".to_owned(),
            Type::Constr => "constr".to_owned(),
            Type::TypeVar(n) => n.clone(),
            Type::Array(a) => {
                let mut s = a.base.render_parenthesized();
                s.append("[");
                match a.length {
                    Some(l) => {
                        let digits = decimal_string(l);
                        s.append(digits.as_str());
                    },
                    None => {},
                }
                s.append("]");
                s
            },
            Type::Tuple(tu) => {
                let parts = render_list(&tu.items);
                let body = join_strings(&parts, ", ");
                let mut s: String = "(".to_owned();
                s.append(body.as_str());
                s.append(")");
                s
            },
            Type::Function(f) => {
                let parts = render_list(&f.params);
                let mut s = join_strings(&parts, ", ");
                s.append(" -> ");
                let value = f.value.render_parenthesized();
                s.append(value.as_str());
                s
            },
        }
    }

    /// Renders the type, parenthesized where formatting needs it.
    fn render_parenthesized(&self) -> (r: String)
        ensures
            r@ == type_display_parenthesized(*self),
        decreases *self, 1int,
    {
        if self.needs_parentheses() {
            let mut s: String = "(".to_owned();
            let body = self.render();
            s.append(body.as_str());
            s.append(")");
            s
        } else {
            self.render()
        }
    }
}

/// The rendered forms of a list of types.
fn render_list(ts: &Vec<Type>) -> (r: Vec<String>)
    ensures
        string_views(r@) == type_display_list(*ts, ts@.len() as int),
    decreases *ts,
{
    let mut r: Vec<String> = Vec::new();
    let mut i: usize = 0;
    while i < ts.len()
        invariant
            0 <= i <= ts@.len(),
            r@.len() == i,
            forall|j: int| 0 <= j < i ==> (#[trigger] r@[j])@ == type_display(ts@[j]),
        decreases ts@.len() - i,
    {
        r.push(ts[i].render());
        i = i + 1;
    }
    proof {
        lemma_type_display_list_views(*ts, r@);
    }
    r
}

/// A string list whose views are the types' rendered forms, pointwise, is
/// the rendered list.
proof fn lemma_type_display_list_views(ts: Vec<Type>, parts: Seq<String>)
    requires
        parts.len() == ts@.len(),
        forall|j: int| 0 <= j < ts@.len() ==> (#[trigger] parts[j])@ == type_display(ts@[j]),
    ensures
        string_views(parts) == type_display_list(ts, ts@.len() as int),
{
    lemma_type_display_list_index(ts, ts@.len() as int);
    assert(string_views(parts) =~= type_display_list(ts, ts@.len() as int));
}

/// The rendered list has one entry per type, in order.
proof fn lemma_type_display_list_index(ts: Vec<Type>, n: int)
    requires
        0 <= n <= ts@.len(),
    ensures
        type_display_list(ts, n).len() == n,
        forall|j: int| 0 <= j < n ==> #[trigger] type_display_list(ts, n)[j] == type_display(
            ts@[j],
        ),
    decreases n,
{
    if n > 0 {
        lemma_type_display_list_index(ts, n - 1);
    }
}

/// Formats a type scheme around a name: the bound variables, the name, and
/// the type after a colon; a name alone when there is no scheme.
pub fn format_type_scheme_around_name(name: &str, type_scheme: &Option<TypeScheme>) -> (r: String)
    ensures
        r@ == match *type_scheme {
            Option::Some(ts) => type_vars_display(ts.vars) + " "@ + name@ + ": "@ + type_display(
                ts.ty,
            ),
            Option::None => " "@ + name@,
        },
{
    match type_scheme {
        Some(ts) => {
            let mut s = ts.type_vars_to_string();
            s.append(" ");
            s.append(name);
            s.append(": ");
            let ty = ts.ty.render();
            s.append(ty.as_str());
            s
        },
        None => {
            let mut s: String = " ".to_owned();
            s.append(name);
            s
        },
    }
}

} // verus!
