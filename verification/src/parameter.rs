//! The parameters of a function or module once evaluated: a name, the type
//! that arguments must have, and the value taken where a call gives none.
//!
//! The values are of any type `T` that knows its [`Type`].
use crate::identifier::Identifier;
use crate::lang_type::{Ty, Type};
use crate::parse_error::ParseError;
use crate::symbols::EvalError;
use vstd::prelude::*;

verus! {

/// A parameter after evaluation.
#[derive(Debug)]
pub struct ParameterValue<T> {
    pub name: Identifier,
    pub specified_type: Option<Type>,
    pub default_value: Option<T>,
}

/// How the type of an argument fits a parameter.
#[derive(Debug)]
pub enum TypeCheckResult {
    /// The argument has the parameter's type, or the parameter has none.
    Matches,
    /// The argument is a tuple whose fields may fit the parameters.
    Tuple,
    /// The argument is a list of values of the parameter's type.
    List,
    /// The argument does not fit.
    Mismatch(EvalError),
}

/// Whether an argument of type `ty` fits the parameter: any type fits a
/// parameter without a type.
pub open spec fn type_fits<T>(p: ParameterValue<T>, ty: Type) -> bool {
    match p.specified_type {
        Some(t) => t == ty,
        None => true,
    }
}

/// Whether `ty` is the type of lists of `elem`.
pub open spec fn list_of(ty: Type, elem: Type) -> bool {
    ty matches Type::List(l) && *l.0 == elem
}

impl<T> ParameterValue<T> {
    /// A parameter value.
    pub fn new(name: Identifier, specified_type: Option<Type>, default_value: Option<T>) -> (p: ParameterValue<T>)
        ensures
            p.name == name,
            p.specified_type == specified_type,
            p.default_value == default_value,
    {
        ParameterValue { name, specified_type, default_value }
    }

    /// The parameter's name.
    pub fn name(&self) -> (r: &Identifier)
        ensures
            *r == self.name,
    {
        &self.name
    }

    /// The type that arguments must have, if there is one.
    pub fn specified_type(&self) -> (r: Option<&Type>)
        ensures
            r matches Some(t) ==> self.specified_type == Some(*t),
            r is None ==> self.specified_type is None,
    {
        match &self.specified_type {
            Some(t) => Some(t),
            None => None,
        }
    }

    /// The value taken where a call gives none, if there is one.
    pub fn default_value(&self) -> (r: Option<&T>)
        ensures
            r matches Some(v) ==> self.default_value == Some(*v),
            r is None ==> self.default_value is None,
    {
        match &self.default_value {
            Some(v) => Some(v),
            None => None,
        }
    }

    /// Whether an argument of type `ty` fits: any type fits a parameter
    /// without a type.
    pub fn type_matches(&self, ty: &Type) -> (r: bool)
        ensures
            r == type_fits(*self, *ty),
    {
        match &self.specified_type {
            Some(t) => *t == *ty,
            None => true,
        }
    }

    /// How an argument of type `ty` fits: it matches, it is a list of the
    /// parameter's type, or it does not fit, with the error that says so.
    pub fn type_check(&self, ty: &Type) -> (r: TypeCheckResult)
        ensures
            type_fits(*self, *ty) ==> r is Matches,
            !type_fits(*self, *ty) && list_of(*ty, self.specified_type->0) ==> r is List,
            !type_fits(*self, *ty) && !list_of(*ty, self.specified_type->0) ==> (r matches TypeCheckResult::Mismatch(
                EvalError::ParameterTypeMismatch(n, s, t),
            ) && n@ == self.name@ && self.specified_type == Some(s) && t == *ty),
    {
        if self.type_matches(ty) {
            TypeCheckResult::Matches
        } else {
            let specified = match &self.specified_type {
                Some(t) => t,
                None => {
                    return TypeCheckResult::Matches;
                },
            };
            if ty.is_list_of(specified) {
                TypeCheckResult::List
            } else {
                TypeCheckResult::Mismatch(
                    EvalError::ParameterTypeMismatch(self.name.copy(), specified.copy(), ty.copy()),
                )
            }
        }
    }
}

/// The names of a sequence of parameters.
pub open spec fn param_names<T>(ps: Seq<ParameterValue<T>>) -> Seq<Seq<char>> {
    ps.map_values(|p: ParameterValue<T>| p.name@)
}

/// The index of the parameter named `name`, if there is one.
pub open spec fn find_param<T>(ps: Seq<ParameterValue<T>>, name: Seq<char>) -> Option<int> {
    if exists|i: int| 0 <= i < ps.len() && #[trigger] ps[i].name@ == name {
        Some(choose|i: int| 0 <= i < ps.len() && #[trigger] ps[i].name@ == name)
    } else {
        None
    }
}

/// The parameters without the one named `name`.
pub open spec fn without_param<T>(ps: Seq<ParameterValue<T>>, name: Seq<char>) -> Seq<ParameterValue<T>> {
    match find_param(ps, name) {
        Some(i) => ps.remove(i),
        None => ps,
    }
}

/// Parameters in the order of their definition, with an index by name.
///
/// The index finds, for each name, at most one parameter: built from a
/// list, the last one of each name.  Removing a parameter by name takes the
/// one that the index finds, and a parameter of the same name that the index
/// did not hold stays in the list, though no name finds it.
#[derive(Debug)]
pub struct ParameterValueList<T> {
    parameters: Vec<ParameterValue<T>>,
    indexed: Vec<bool>,
}

impl<T> View for ParameterValueList<T> {
    type V = Seq<ParameterValue<T>>;

    closed spec fn view(&self) -> Seq<ParameterValue<T>> {
        self.parameters@
    }
}

/// Whether no later parameter of `ps` has the name of the one at `i`.
pub open spec fn last_of_name<T>(ps: Seq<ParameterValue<T>>, i: int) -> bool {
    forall|j: int| i < j < ps.len() ==> (#[trigger] ps[j]).name@ != ps[i].name@
}

/// The index by name of a list built from `ps`: the last parameter of each
/// name.
pub open spec fn initial_index<T>(ps: Seq<ParameterValue<T>>) -> Seq<bool> {
    Seq::new(ps.len(), |i: int| last_of_name(ps, i))
}

/// No two parameters that the index holds share a name.
pub open spec fn index_unique<T>(ps: Seq<ParameterValue<T>>, flags: Seq<bool>) -> bool {
    forall|i: int, j: int|
        #![trigger flags[i], flags[j]]
        0 <= i < ps.len() && 0 <= j < ps.len() && i != j && flags[i] && flags[j] ==> ps[i].name@ != ps[j].name@
}

/// The position of the parameter that the index finds under `name`.
pub open spec fn indexed_pos<T>(ps: Seq<ParameterValue<T>>, flags: Seq<bool>, name: Seq<char>) -> Option<int> {
    if exists|j: int| 0 <= j < ps.len() && #[trigger] flags[j] && ps[j].name@ == name {
        Some(choose|j: int| 0 <= j < ps.len() && #[trigger] flags[j] && ps[j].name@ == name)
    } else {
        None
    }
}

/// Whether the index holds any parameter.
pub open spec fn any_indexed(flags: Seq<bool>) -> bool {
    exists|j: int| 0 <= j < flags.len() && #[trigger] flags[j]
}

/// The position the index finds under `name` is the only one it holds of
/// that name.
pub proof fn lemma_indexed_pos<T>(ps: Seq<ParameterValue<T>>, flags: Seq<bool>, name: Seq<char>)
    requires
        flags.len() == ps.len(),
        index_unique(ps, flags),
    ensures
        indexed_pos(ps, flags, name) matches Some(i) ==> 0 <= i < ps.len() && flags[i] && ps[i].name@ == name
            && forall|j: int| 0 <= j < ps.len() && #[trigger] flags[j] && ps[j].name@ == name ==> j == i,
        indexed_pos(ps, flags, name) is None ==> forall|j: int| 0 <= j < ps.len() && #[trigger] flags[j] ==> ps[j].name@ != name,
{
}

/// Removing the parameter at `i` from list and index keeps the index unique.
pub proof fn lemma_remove_unique<T>(ps: Seq<ParameterValue<T>>, flags: Seq<bool>, i: int)
    requires
        flags.len() == ps.len(),
        index_unique(ps, flags),
        0 <= i < ps.len(),
    ensures
        index_unique(ps.remove(i), flags.remove(i)),
{
    let p = ps.remove(i);
    let f = flags.remove(i);
    assert forall|a: int, b: int|
        #![trigger f[a], f[b]]
        0 <= a < p.len() && 0 <= b < p.len() && a != b && f[a] && f[b] implies p[a].name@ != p[b].name@ by {
        let a0 = if a < i { a } else { a + 1 };
        let b0 = if b < i { b } else { b + 1 };
        assert(p[a] == ps[a0] && f[a] == flags[a0]);
        assert(p[b] == ps[b0] && f[b] == flags[b0]);
    }
}

/// With distinct names, the parameter named `name` is the only one.
pub proof fn lemma_find_param<T>(ps: Seq<ParameterValue<T>>, name: Seq<char>)
    requires
        param_names(ps).no_duplicates(),
    ensures
        find_param(ps, name) matches Some(i) ==> 0 <= i < ps.len() && ps[i].name@ == name && forall|j: int|
            0 <= j < ps.len() && #[trigger] ps[j].name@ == name ==> j == i,
        find_param(ps, name) is None ==> forall|j: int| 0 <= j < ps.len() ==> #[trigger] ps[j].name@ != name,
{
    if let Some(i) = find_param(ps, name) {
        assert forall|j: int| 0 <= j < ps.len() && #[trigger] ps[j].name@ == name implies j == i by {
            assert(param_names(ps)[j] == param_names(ps)[i]);
        }
    }
}

/// Removing a parameter keeps the names of the others distinct.
pub proof fn lemma_without_param<T>(ps: Seq<ParameterValue<T>>, name: Seq<char>)
    requires
        param_names(ps).no_duplicates(),
    ensures
        param_names(without_param(ps, name)).no_duplicates(),
        forall|j: int| 0 <= j < without_param(ps, name).len() ==> #[trigger] without_param(ps, name)[j].name@ != name,
        without_param(ps, name).len() == if find_param(ps, name) is Some { ps.len() - 1 } else { ps.len() as int },
{
    lemma_find_param(ps, name);
    if let Some(i) = find_param(ps, name) {
        let r = ps.remove(i);
        assert forall|a: int, b: int| 0 <= a < b < r.len() implies param_names(r)[a] != param_names(r)[b] by {
            let a0 = if a < i { a } else { a + 1 };
            let b0 = if b < i { b } else { b + 1 };
            assert(r[a] == ps[a0]);
            assert(r[b] == ps[b0]);
            assert(param_names(ps)[a0] != param_names(ps)[b0]);
        }
        assert forall|j: int| 0 <= j < r.len() implies #[trigger] r[j].name@ != name by {
            let j0 = if j < i { j } else { j + 1 };
            assert(r[j] == ps[j0]);
        }
    }
}

impl<T> ParameterValueList<T> {
    /// The index holds one flag per parameter, and no two parameters that
    /// it holds share a name.
    #[verifier::type_invariant]
    pub closed spec fn well_indexed(self) -> bool {
        &&& self.indexed@.len() == self.parameters@.len()
        &&& index_unique(self.parameters@, self.indexed@)
    }

    /// For each parameter, whether the index finds it by its name.
    pub closed spec fn index(self) -> Seq<bool> {
        self.indexed@
    }

    /// The index has one flag per parameter and holds no two parameters of
    /// one name.
    pub proof fn lemma_well_indexed(self)
        requires
            self.well_indexed(),
        ensures
            self.index().len() == self@.len(),
            index_unique(self@, self.index()),
    {
    }

    /// The list of the parameters `parameters`; the index finds, for each
    /// name, the last parameter of that name.
    pub fn new(parameters: Vec<ParameterValue<T>>) -> (l: ParameterValueList<T>)
        ensures
            l@ == parameters@,
            l.index() == initial_index(parameters@),
    {
        let ghost ps = parameters@;
        let n = parameters.len();
        let mut indexed: Vec<bool> = Vec::new();
        for i in 0..n
            invariant
                n == ps.len(),
                ps == parameters@,
                indexed@.len() == i,
                forall|k: int| 0 <= k < i ==> indexed@[k] == last_of_name(ps, k),
        {
            let mut last = true;
            let mut j = i + 1;
            while j < n
                invariant
                    n == ps.len(),
                    ps == parameters@,
                    i < n,
                    i < j <= n,
                    last == forall|k: int| i < k < j ==> (#[trigger] ps[k]).name@ != ps[i as int].name@,
                decreases n - j,
            {
                if parameters[j].name == parameters[i].name {
                    last = false;
                }
                j = j + 1;
            }
            indexed.push(last);
        }
        let l = ParameterValueList { parameters, indexed };
        assert(l.index() =~= initial_index(ps));
        assert forall|a: int, b: int|
            #![trigger l.indexed@[a], l.indexed@[b]]
            0 <= a < ps.len() && 0 <= b < ps.len() && a != b && l.indexed@[a] && l.indexed@[b] implies ps[a].name@
            != ps[b].name@ by {
            if a < b {
                assert(last_of_name(ps, a));
            } else {
                assert(last_of_name(ps, b));
            }
        }
        l
    }

    /// The position of the parameter that the index finds under `name`.
    fn index_of(&self, name: &Identifier) -> (r: Option<usize>)
        ensures
            r matches Some(i) ==> indexed_pos(self@, self.index(), name@) == Some(i as int),
            r is None ==> indexed_pos(self@, self.index(), name@) is None,
    {
        proof {
            use_type_invariant(self);
            lemma_indexed_pos(self@, self.index(), name@);
        }
        for i in 0..self.parameters.len()
            invariant
                self.indexed@.len() == self.parameters@.len(),
                index_unique(self@, self.index()),
                forall|j: int| 0 <= j < i ==> #[trigger] self.index()[j] ==> self@[j].name@ != name@,
        {
            if self.indexed[i] && self.parameters[i].name == *name {
                proof {
                    lemma_indexed_pos(self@, self.index(), name@);
                }
                return Some(i);
            }
        }
        None
    }

    /// Adds a parameter at the end, unless the index finds one of its name.
    pub fn push(&mut self, parameter: ParameterValue<T>) -> (r: Result<(), ParseError>)
        ensures
            indexed_pos(old(self)@, old(self).index(), parameter.name@) is None ==> r is Ok
                && final(self)@ == old(self)@.push(parameter) && final(self).index() == old(self).index().push(true),
            indexed_pos(old(self)@, old(self).index(), parameter.name@) is Some ==> final(self)@ == old(self)@
                && final(self).index() == old(self).index() && (r matches Err(ParseError::DuplicateParameter(n)) && n@
                == parameter.name@),
    {
        proof {
            use_type_invariant(&*self);
            lemma_indexed_pos(self@, self.index(), parameter.name@);
        }
        if self.index_of(&parameter.name).is_some() {
            return Err(ParseError::DuplicateParameter(parameter.name));
        }
        let ghost ps = self@;
        let ghost fl = self.index();
        let mut whole = ParameterValueList { parameters: Vec::new(), indexed: Vec::new() };
        std::mem::swap(&mut whole, self);
        let ParameterValueList { parameters: mut items, indexed: mut flags } = whole;
        items.push(parameter);
        flags.push(true);
        assert forall|a: int, b: int|
            #![trigger flags@[a], flags@[b]]
            0 <= a < items@.len() && 0 <= b < items@.len() && a != b && flags@[a] && flags@[b] implies items@[a].name@
            != items@[b].name@ by {
            if a < ps.len() && b < ps.len() {
                assert(items@[a] == ps[a] && items@[b] == ps[b] && flags@[a] == fl[a] && flags@[b] == fl[b]);
            } else if a < ps.len() {
                assert(items@[a] == ps[a] && flags@[a] == fl[a]);
            } else {
                assert(items@[b] == ps[b] && flags@[b] == fl[b]);
            }
        }
        *self = ParameterValueList { parameters: items, indexed: flags };
        Ok(())
    }

    /// The parameter that the index finds under `name`, if there is one.
    pub fn get(&self, name: &Identifier) -> (r: Option<&ParameterValue<T>>)
        ensures
            r matches Some(p) ==> indexed_pos(self@, self.index(), name@) matches Some(i) && *p == self@[i],
            r is None ==> indexed_pos(self@, self.index(), name@) is None,
    {
        match self.index_of(name) {
            Some(i) => Some(&self.parameters[i]),
            None => None,
        }
    }

    /// Removes the parameter that the index finds under `name`, if there is
    /// one.
    pub fn remove(&mut self, name: &Identifier)
        ensures
            indexed_pos(old(self)@, old(self).index(), name@) matches Some(i) ==> final(self)@ == old(self)@.remove(i)
                && final(self).index() == old(self).index().remove(i),
            indexed_pos(old(self)@, old(self).index(), name@) is None ==> final(self)@ == old(self)@
                && final(self).index() == old(self).index(),
    {
        proof {
            use_type_invariant(&*self);
        }
        if let Some(i) = self.index_of(name) {
            proof {
                lemma_remove_unique(self@, self.index(), i as int);
            }
            let mut whole = ParameterValueList { parameters: Vec::new(), indexed: Vec::new() };
            std::mem::swap(&mut whole, self);
            let ParameterValueList { parameters: mut items, indexed: mut flags } = whole;
            items.remove(i);
            flags.remove(i);
            *self = ParameterValueList { parameters: items, indexed: flags };
        }
    }

    /// Whether the index holds no parameter.
    pub fn is_empty(&self) -> (r: bool)
        ensures
            r == !any_indexed(self.index()),
    {
        for i in 0..self.indexed.len()
            invariant
                forall|j: int| 0 <= j < i ==> !(#[trigger] self.index()[j]),
        {
            if self.indexed[i] {
                return false;
            }
        }
        true
    }

    /// The number of parameters.
    pub fn len(&self) -> (n: usize)
        ensures
            n == self@.len(),
    {
        self.parameters.len()
    }

    /// Whether the index finds the parameter at `i` by its name.
    pub fn is_indexed(&self, i: usize) -> (r: bool)
        requires
            i < self@.len(),
        ensures
            r == self.index()[i as int],
    {
        proof {
            use_type_invariant(self);
        }
        self.indexed[i]
    }

    /// The parameter at index `i`.
    pub fn at(&self, i: usize) -> (r: &ParameterValue<T>)
        requires
            i < self@.len(),
        ensures
            *r == self@[i as int],
    {
        &self.parameters[i]
    }
}

// ---------------------------------------------------------------------------
// Parameters as defined
// ---------------------------------------------------------------------------

/// A parameter of a function or module definition: a name, the type that
/// arguments must have, and the expression of the default value, each of
/// the last two optional.
#[derive(Debug)]
pub struct Parameter<E> {
    pub name: Identifier,
    pub specified_type: Option<Type>,
    pub default_value: Option<E>,
}

/// What evaluating a parameter gives, once its default expression, if it
/// has one, has the value `default`: with a type and a default, the default
/// must have that type; with a default alone, the parameter takes the
/// default's type.
pub open spec fn spec_eval_parameter<E, T: Ty>(p: Parameter<E>, default: Option<T>) -> Result<
    ParameterValue<T>,
    (Type, Type),
> {
    match (p.specified_type, default) {
        (Some(t), Some(v)) => if t != v.spec_ty() {
            Err((t, v.spec_ty()))
        } else {
            Ok(ParameterValue { name: p.name, specified_type: Some(t), default_value: Some(v) })
        },
        (Some(t), None) => Ok(ParameterValue { name: p.name, specified_type: Some(t), default_value: None }),
        (None, Some(v)) => Ok(
            ParameterValue { name: p.name, specified_type: Some(v.spec_ty()), default_value: Some(v) },
        ),
        (None, None) => Ok(ParameterValue { name: p.name, specified_type: None, default_value: None }),
    }
}

/// `v` is what evaluating the parameter `p` gives with the default `d`.
pub open spec fn evaluated_as<E, T: Ty>(v: ParameterValue<T>, p: Parameter<E>, d: Option<T>) -> bool {
    &&& spec_eval_parameter(p, d) is Ok
    &&& v.name@ == spec_eval_parameter(p, d)->Ok_0.name@
    &&& v.specified_type == spec_eval_parameter(p, d)->Ok_0.specified_type
    &&& v.default_value == spec_eval_parameter(p, d)->Ok_0.default_value
}

/// `e` is the error that evaluating the parameter `p` gives with the
/// default `d`.
pub open spec fn mismatch_of<E, T: Ty>(e: EvalError, p: Parameter<E>, d: Option<T>) -> bool {
    &&& spec_eval_parameter(p, d) is Err
    &&& e matches EvalError::ParameterTypeMismatch(n, t, u)
    &&& n@ == p.name@
    &&& (t, u) == spec_eval_parameter(p, d)->Err_0
}

impl<E> Parameter<E> {
    /// A parameter.
    pub fn new(name: Identifier, specified_type: Option<Type>, default_value: Option<E>) -> (p: Parameter<E>)
        ensures
            p.name == name,
            p.specified_type == specified_type,
            p.default_value == default_value,
    {
        Parameter { name, specified_type, default_value }
    }

    /// The parameter's name.
    pub fn name(&self) -> (r: &Identifier)
        ensures
            *r == self.name,
    {
        &self.name
    }

    /// The type that arguments must have, if there is one.
    pub fn specified_type(&self) -> (r: Option<&Type>)
        ensures
            r matches Some(t) ==> self.specified_type == Some(*t),
            r is None ==> self.specified_type is None,
    {
        match &self.specified_type {
            Some(t) => Some(t),
            None => None,
        }
    }

    /// The expression of the default value, if there is one.
    pub fn default_value(&self) -> (r: Option<&E>)
        ensures
            r matches Some(v) ==> self.default_value == Some(*v),
            r is None ==> self.default_value is None,
    {
        match &self.default_value {
            Some(v) => Some(v),
            None => None,
        }
    }

    /// Evaluates the parameter, given `default`, the value of its default
    /// expression where it has one: a default of another type than the
    /// specified one is refused.
    pub fn eval_with<T: Ty>(&self, default: Option<T>) -> (r: Result<ParameterValue<T>, EvalError>)
        requires
            default is Some <==> self.default_value is Some,
        ensures
            r is Ok <==> spec_eval_parameter(*self, default) is Ok,
            r matches Ok(w) ==> evaluated_as(w, *self, default),
            r matches Err(e) ==> mismatch_of(e, *self, default),
    {
        match (&self.specified_type, default) {
            (Some(specified_type), Some(v)) => {
                let ty = v.ty();
                if *specified_type != ty {
                    Err(EvalError::ParameterTypeMismatch(self.name.copy(), specified_type.copy(), ty))
                } else {
                    Ok(ParameterValue { name: self.name.copy(), specified_type: Some(specified_type.copy()), default_value: Some(v) })
                }
            },
            (Some(t), None) => Ok(ParameterValue { name: self.name.copy(), specified_type: Some(t.copy()), default_value: None }),
            (None, Some(v)) => {
                let ty = v.ty();
                Ok(ParameterValue { name: self.name.copy(), specified_type: Some(ty), default_value: Some(v) })
            },
            (None, None) => Ok(ParameterValue { name: self.name.copy(), specified_type: None, default_value: None }),
        }
    }
}

/// The names of a sequence of defined parameters.
pub open spec fn defined_names<E>(ps: Seq<Parameter<E>>) -> Seq<Seq<char>> {
    ps.map_values(|p: Parameter<E>| p.name@)
}

/// The parameters of a definition, each with a name of its own, in order.
#[derive(Debug)]
pub struct ParameterList<E> {
    parameters: Vec<Parameter<E>>,
}

impl<E> View for ParameterList<E> {
    type V = Seq<Parameter<E>>;

    closed spec fn view(&self) -> Seq<Parameter<E>> {
        self.parameters@
    }
}

/// Whether the parameters `ps` up to and including the one at `j` evaluate
/// with the defaults `ds`.
pub open spec fn evaluates_to<E, T: Ty>(ps: Seq<Parameter<E>>, ds: Seq<Option<T>>, j: int) -> bool {
    forall|k: int| 0 <= k <= j ==> #[trigger] spec_eval_parameter(ps[k], ds[k]) is Ok
}

impl<E> ParameterList<E> {
    /// The list of the parameters `parameters`.
    pub fn new(parameters: Vec<Parameter<E>>) -> (l: ParameterList<E>)
        ensures
            l@ == parameters@,
    {
        ParameterList { parameters }
    }

    /// Adds a parameter at the end, unless one of its name is there already.
    pub fn push(&mut self, parameter: Parameter<E>) -> (r: Result<(), ParseError>)
        ensures
            !defined_names(old(self)@).contains(parameter.name@) ==> r is Ok && final(self)@ == old(self)@.push(
                parameter,
            ),
            defined_names(old(self)@).contains(parameter.name@) ==> final(self)@ == old(self)@ && (r matches Err(
                ParseError::DuplicateParameter(n),
            ) && n@ == parameter.name@),
    {
        let ghost ns = defined_names(self@);
        for i in 0..self.parameters.len()
            invariant
                ns == defined_names(self@),
                forall|j: int| 0 <= j < i ==> ns[j] != parameter.name@,
        {
            if self.parameters[i].name == parameter.name {
                assert(ns[i as int] == parameter.name@);
                return Err(ParseError::DuplicateParameter(parameter.name));
            }
        }
        let ghost before = self@;
        let mut items: Vec<Parameter<E>> = Vec::new();
        std::mem::swap(&mut items, &mut self.parameters);
        items.push(parameter);
        assert(defined_names(items@) =~= ns.push(parameter.name@));
        self.parameters = items;
        Ok(())
    }

    /// The number of parameters.
    pub fn len(&self) -> (n: usize)
        ensures
            n == self@.len(),
    {
        self.parameters.len()
    }

    /// The parameter at index `i`.
    pub fn at(&self, i: usize) -> (r: &Parameter<E>)
        requires
            i < self@.len(),
        ensures
            *r == self@[i as int],
    {
        &self.parameters[i]
    }

    /// Evaluates the parameters in order, given `defaults`, the values of
    /// their default expressions, one for each parameter that has one; at
    /// the first parameter whose default does not have its type, the
    /// evaluation stops with that error.  A parameter whose name an
    /// evaluated parameter before it has cannot join the list of values.
    pub fn eval_with<T: Ty>(&self, defaults: Vec<Option<T>>) -> (r: Result<ParameterValueList<T>, EvalError>)
        requires
            defaults@.len() == self@.len(),
            forall|i: int| 0 <= i < self@.len() ==> (#[trigger] defaults@[i] is Some <==> self@[i].default_value is Some),
            forall|i: int, j: int|
                #![trigger self@[i], self@[j]]
                0 <= i < j < self@.len() && self@[i].name@ == self@[j].name@ ==> !evaluates_to(self@, defaults@, j),
        ensures
            r matches Ok(l) ==> l.index().len() == self@.len() && forall|i: int| 0 <= i < self@.len() ==> #[trigger] l.index()[i],
            r is Ok <==> forall|i: int| 0 <= i < self@.len() ==> #[trigger] spec_eval_parameter(self@[i], defaults@[i]) is Ok,
            r matches Ok(l) ==> l@.len() == self@.len() && forall|i: int|
                0 <= i < self@.len() ==> #[trigger] evaluated_as(l@[i], self@[i], defaults@[i]),
            r matches Err(e) ==> exists|k: int|
                0 <= k < self@.len() && (forall|i: int| 0 <= i < k ==> #[trigger] spec_eval_parameter(self@[i], defaults@[i]) is Ok)
                    && #[trigger] mismatch_of(e, self@[k], defaults@[k]),
    {
        let ghost ds = defaults@;
        let mut values: ParameterValueList<T> = ParameterValueList::new(Vec::new());
        assert(values.index() =~= Seq::<bool>::empty());
        let mut rest = defaults;
        let mut i: usize = 0;
        let n = self.parameters.len();
        // The defaults are taken from the front, one for each parameter.
        let mut taken: Vec<Option<T>> = Vec::new();
        while rest.len() > 0
            invariant
                rest@.len() + taken@.len() == ds.len(),
                forall|j: int| 0 <= j < taken@.len() ==> taken@[j] == ds[ds.len() - 1 - j],
                forall|j: int| 0 <= j < rest@.len() ==> rest@[j] == ds[j],
            decreases rest@.len(),
        {
            let d = rest.pop().unwrap();
            taken.push(d);
        }
        while i < n
            invariant
                ds == defaults@,
                n == self@.len(),
                i <= n,
                ds.len() == n,
                taken@.len() == n - i,
                forall|j: int| 0 <= j < taken@.len() ==> taken@[j] == ds[n - 1 - j],
                forall|j: int| 0 <= j < self@.len() ==> (#[trigger] ds[j] is Some <==> self@[j].default_value is Some),
                forall|a: int, b: int|
                    #![trigger self@[a], self@[b]]
                    0 <= a < b < self@.len() && self@[a].name@ == self@[b].name@ ==> !evaluates_to(self@, ds, b),
                values@.len() == i,
                values.index().len() == i,
                forall|j: int| 0 <= j < i ==> #[trigger] values.index()[j],
                forall|j: int| 0 <= j < i ==> #[trigger] evaluated_as(values@[j], self@[j], ds[j]),
            decreases n - i,
        {
            let d = taken.pop().unwrap();
            assert(d == ds[i as int]);
            let p = &self.parameters[i];
            match p.eval_with(d) {
                Ok(v) => {
                    assert(evaluated_as(v, self@[i as int], ds[i as int]));
                    proof {
                        assert forall|k: int| 0 <= k <= i implies #[trigger] spec_eval_parameter(self@[k], ds[k]) is Ok by {
                            if k < i {
                                assert(evaluated_as(values@[k], self@[k], ds[k]));
                            }
                        }
                        assert(evaluates_to(self@, ds, i as int));
                        assert forall|j: int| 0 <= j < i implies values@[j].name@ != v.name@ by {
                            assert(evaluated_as(values@[j], self@[j], ds[j]));
                            if self@[j].name@ == self@[i as int].name@ {
                                assert(!evaluates_to(self@, ds, i as int));
                            }
                        }
                        if let Some(q) = indexed_pos(values@, values.index(), v.name@) {
                            assert(values@[q].name@ == v.name@);
                        }
                    }
                    let ghost fl = values.index();
                    match values.push(v) {
                        Ok(()) => {},
                        Err(_) => {
                            assert(false);
                        },
                    }
                },
                Err(e) => {
                    assert(mismatch_of(e, self@[i as int], ds[i as int]));
                    assert forall|j: int| 0 <= j < i implies #[trigger] spec_eval_parameter(self@[j], ds[j]) is Ok by {
                        assert(evaluated_as(values@[j], self@[j], ds[j]));
                    }
                    return Err(e);
                },
            }
            i = i + 1;
        }
        assert forall|j: int| 0 <= j < self@.len() implies #[trigger] spec_eval_parameter(self@[j], ds[j]) is Ok by {
            assert(evaluated_as(values@[j], self@[j], ds[j]));
        }
        Ok(values)
    }
}

} // verus!
