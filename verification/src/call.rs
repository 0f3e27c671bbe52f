//! The arguments of a call once evaluated, and how they are matched to the
//! parameters of what is called.
//!
//! Named arguments go to the parameters of their names; the parameters left
//! take their default values, and then, in order, the positional arguments
//! whose types fit.
use crate::identifier::{Identifier, IdentifierList};
use crate::lang_type::Ty;
use crate::parameter::{
    ParameterValue, ParameterValueList, TypeCheckResult, any_indexed, index_unique, indexed_pos, lemma_indexed_pos,
    lemma_remove_unique, param_names, type_fits,
};
use crate::symbols::EvalError;
use vstd::prelude::*;

verus! {

/// An argument of a call after evaluation: its name, where it was given as
/// `name = value`, and its value.
#[derive(Debug)]
pub struct CallArgumentValue<T> {
    pub name: Option<Identifier>,
    pub value: T,
}

impl<T> CallArgumentValue<T> {
    /// An argument value.
    pub fn new(name: Option<Identifier>, value: T) -> (a: CallArgumentValue<T>)
        ensures
            a.name == name,
            a.value == value,
    {
        CallArgumentValue { name, value }
    }
}

/// Whether the argument was given with the name `name`.
pub open spec fn named_as<T>(a: CallArgumentValue<T>, name: Seq<char>) -> bool {
    a.name matches Some(n) && n@ == name
}

/// The index of the last argument named `name`, if there is one.
pub open spec fn last_named<T>(args: Seq<CallArgumentValue<T>>, name: Seq<char>) -> Option<int>
    decreases args.len(),
{
    if args.len() == 0 {
        None
    } else if named_as(args.last(), name) {
        Some(args.len() - 1)
    } else {
        last_named(args.drop_last(), name)
    }
}

/// The arguments of a call, in order.
#[derive(Debug)]
pub struct CallArgumentValueList<T> {
    arguments: Vec<CallArgumentValue<T>>,
}

impl<T> View for CallArgumentValueList<T> {
    type V = Seq<CallArgumentValue<T>>;

    closed spec fn view(&self) -> Seq<CallArgumentValue<T>> {
        self.arguments@
    }
}

/// The arguments bound to parameters: each parameter's name with the value
/// it takes.
#[derive(Debug)]
pub struct ArgumentMap<T> {
    entries: Vec<(Identifier, T)>,
}

impl<T> View for ArgumentMap<T> {
    type V = Seq<(Seq<char>, T)>;

    closed spec fn view(&self) -> Seq<(Seq<char>, T)> {
        entry_views(self.entries@)
    }
}

/// The names, as text, and the values of a sequence of entries.
pub open spec fn entry_views<T>(es: Seq<(Identifier, T)>) -> Seq<(Seq<char>, T)> {
    es.map_values(|e: (Identifier, T)| (e.0@, e.1))
}

/// The index of the entry named `name`, if there is one.
pub open spec fn map_find<T>(m: Seq<(Seq<char>, T)>, name: Seq<char>) -> Option<int>
    decreases m.len(),
{
    if m.len() == 0 {
        None
    } else if m.last().0 == name {
        Some(m.len() - 1)
    } else {
        map_find(m.drop_last(), name)
    }
}

/// The entries with `value` bound to `name`: in place of the entry of that
/// name, or after the others.
pub open spec fn map_insert<T>(m: Seq<(Seq<char>, T)>, name: Seq<char>, value: T) -> Seq<(Seq<char>, T)> {
    match map_find(m, name) {
        Some(i) => m.update(i, (name, value)),
        None => m.push((name, value)),
    }
}

/// What `map_find` returns: an entry of that name, the last one.
pub proof fn lemma_map_find<T>(m: Seq<(Seq<char>, T)>, name: Seq<char>)
    ensures
        map_find(m, name) matches Some(i) ==> 0 <= i < m.len() && m[i].0 == name,
        map_find(m, name) is None ==> forall|j: int| 0 <= j < m.len() ==> #[trigger] m[j].0 != name,
    decreases m.len(),
{
    if m.len() > 0 {
        lemma_map_find(m.drop_last(), name);
        assert forall|j: int| 0 <= j < m.len() - 1 implies #[trigger] m[j] == m.drop_last()[j] by {}
    }
}

impl<T> ArgumentMap<T> {
    /// A map without entries.
    pub fn new() -> (m: ArgumentMap<T>)
        ensures
            m@ == Seq::<(Seq<char>, T)>::empty(),
    {
        let m = ArgumentMap { entries: Vec::new() };
        assert(m@ =~= Seq::<(Seq<char>, T)>::empty());
        m
    }

    /// The index of the entry named `name`.
    fn index_of(&self, name: &Identifier) -> (r: Option<usize>)
        ensures
            r matches Some(i) ==> map_find(self@, name@) == Some(i as int),
            r is None ==> map_find(self@, name@) is None,
    {
        let ghost m = self@;
        let mut k = self.entries.len();
        assert(m.take(k as int) =~= m);
        while k > 0
            invariant
                k <= self.entries.len(),
                m == self@,
                map_find(m, name@) == map_find(m.take(k as int), name@),
            decreases k,
        {
            let ghost t = m.take(k as int);
            assert(t.last() == m[k - 1]);
            assert(t.drop_last() =~= m.take(k - 1));
            if self.entries[k - 1].0 == *name {
                return Some(k - 1);
            }
            k = k - 1;
        }
        assert(m.take(0) =~= Seq::<(Seq<char>, T)>::empty());
        None
    }

    /// Binds `value` to `name`, in place of the value bound to it before.
    pub fn insert(&mut self, name: Identifier, value: T)
        ensures
            final(self)@ == map_insert(old(self)@, name@, value),
    {
        let ghost before = self@;
        proof {
            lemma_map_find(before, name@);
        }
        match self.index_of(&name) {
            Some(i) => {
                let ghost n = name@;
                self.entries.set(i, (name, value));
                assert(self@ =~= before.update(i as int, (n, value)));
            },
            None => {
                let ghost n = name@;
                self.entries.push((name, value));
                assert(self@ =~= before.push((n, value)));
            },
        }
    }

    /// The value bound to `name`, if there is one.
    pub fn get(&self, name: &Identifier) -> (r: Option<&T>)
        ensures
            r matches Some(v) ==> map_find(self@, name@) matches Some(i) && *v == self@[i].1,
            r is None ==> map_find(self@, name@) is None,
    {
        proof {
            lemma_map_find(self@, name@);
        }
        match self.index_of(name) {
            Some(i) => {
                assert(self@[i as int].1 == self.entries@[i as int].1);
                Some(&self.entries[i].1)
            },
            None => None,
        }
    }

    /// Whether a value is bound to `name`.
    pub fn contains_key(&self, name: &Identifier) -> (r: bool)
        ensures
            r == map_find(self@, name@) is Some,
    {
        self.index_of(name).is_some()
    }

    /// The number of entries.
    pub fn len(&self) -> (n: usize)
        ensures
            n == self@.len(),
    {
        self.entries.len()
    }
}

impl<T> CallArgumentValueList<T> {
    /// The list of the arguments `args`, in order.
    pub fn new(args: Vec<CallArgumentValue<T>>) -> (l: CallArgumentValueList<T>)
        ensures
            l@ == args@,
    {
        CallArgumentValueList { arguments: args }
    }

    /// Adds an argument at the end.
    pub fn push(&mut self, arg: CallArgumentValue<T>)
        ensures
            final(self)@ == old(self)@.push(arg),
    {
        self.arguments.push(arg);
    }

    /// The number of arguments.
    pub fn len(&self) -> (n: usize)
        ensures
            n == self@.len(),
    {
        self.arguments.len()
    }

    /// The index of the last argument named `name`.
    fn index_by_name(&self, name: &Identifier) -> (r: Option<usize>)
        ensures
            r matches Some(i) ==> last_named(self@, name@) == Some(i as int),
            r is None ==> last_named(self@, name@) is None,
    {
        let ghost args = self@;
        let mut k = self.arguments.len();
        assert(args.take(k as int) =~= args);
        while k > 0
            invariant
                k <= self.arguments.len(),
                args == self@,
                last_named(args, name@) == last_named(args.take(k as int), name@),
            decreases k,
        {
            let ghost t = args.take(k as int);
            assert(t.last() == args[k - 1]);
            assert(t.drop_last() =~= args.take(k - 1));
            if let Some(n) = &self.arguments[k - 1].name {
                if *n == *name {
                    return Some(k - 1);
                }
            }
            k = k - 1;
        }
        assert(args.take(0) =~= Seq::<CallArgumentValue<T>>::empty());
        None
    }

    /// The last argument given with the name `name`, if there is one.
    pub fn get_by_name(&self, name: &Identifier) -> (r: Option<&CallArgumentValue<T>>)
        ensures
            r matches Some(a) ==> last_named(self@, name@) matches Some(i) && *a == self@[i],
            r is None ==> last_named(self@, name@) is None,
    {
        proof {
            lemma_last_named(self@, name@);
        }
        match self.index_by_name(name) {
            Some(i) => Some(&self.arguments[i]),
            None => None,
        }
    }
}

/// What `last_named` returns: an argument of that name.
pub proof fn lemma_last_named<T>(args: Seq<CallArgumentValue<T>>, name: Seq<char>)
    ensures
        last_named(args, name) matches Some(i) ==> 0 <= i < args.len() && named_as(args[i], name),
    decreases args.len(),
{
    if args.len() > 0 {
        lemma_last_named(args.drop_last(), name);
    }
}


// ---------------------------------------------------------------------------
// Matching arguments to parameters
// ---------------------------------------------------------------------------

/// Where matching arguments to parameters stands: the parameters still
/// without a value, in their order, with the index by name over them, and
/// the values bound so far.
pub struct Matching<T> {
    pub missing: Seq<ParameterValue<T>>,
    pub index: Seq<bool>,
    pub bound: Seq<(Seq<char>, T)>,
}

/// The matching with `v` bound to `name`; the parameter that the index
/// finds under `name`, if there is one, no longer misses.
pub open spec fn bind<T>(st: Matching<T>, name: Seq<char>, v: T) -> Matching<T> {
    match indexed_pos(st.missing, st.index, name) {
        Some(i) => Matching {
            missing: st.missing.remove(i),
            index: st.index.remove(i),
            bound: map_insert(st.bound, name, v),
        },
        None => Matching { missing: st.missing, index: st.index, bound: map_insert(st.bound, name, v) },
    }
}

/// The parameter `p` takes the last argument of its name, where that fits
/// its type, or else, where no argument has its name, its default value.
pub open spec fn named_step<T: Ty>(st: Matching<T>, args: Seq<CallArgumentValue<T>>, p: ParameterValue<T>) -> Matching<T> {
    match last_named(args, p.name@) {
        Some(k) => if type_fits(p, args[k].value.spec_ty()) {
            bind(st, p.name@, args[k].value)
        } else {
            st
        },
        None => match p.default_value {
            Some(d) => bind(st, p.name@, d),
            None => st,
        },
    }
}

/// The first `n` parameters of `ps`, in order, take their named arguments
/// or defaults; at first all parameters miss, with the index `flags`, and
/// nothing is bound.
pub open spec fn named_phase<T: Ty>(
    args: Seq<CallArgumentValue<T>>,
    ps: Seq<ParameterValue<T>>,
    flags: Seq<bool>,
    n: int,
) -> Matching<T>
    decreases n,
{
    if n <= 0 {
        Matching { missing: ps, index: flags, bound: Seq::empty() }
    } else {
        named_step(named_phase(args, ps, flags, n - 1), args, ps[n - 1])
    }
}

/// Where binding positional arguments stands: the matching, the position
/// among the missing parameters that the next positional argument goes to,
/// and whether binding has ended.
pub struct Positional<T> {
    pub st: Matching<T>,
    pub at: int,
    pub done: bool,
}

/// A positional argument goes to the missing parameter at the current
/// position, where that parameter's name is not bound and the argument fits
/// its type; binding ends once the position is past the missing parameters.
/// Where the parameter's name is bound already, the position moves on.
pub open spec fn positional_step<T: Ty>(s: Positional<T>, a: CallArgumentValue<T>) -> Positional<T> {
    if s.done || a.name is Some || !(0 <= s.at < s.st.missing.len()) {
        s
    } else {
        let p = s.st.missing[s.at];
        if map_find(s.st.bound, p.name@) is None {
            if type_fits(p, a.value.spec_ty()) {
                let st2 = bind(s.st, p.name@, a.value);
                Positional { st: st2, at: s.at, done: s.at >= st2.missing.len() }
            } else {
                s
            }
        } else {
            Positional { st: s.st, at: s.at + 1, done: false }
        }
    }
}

/// The first `n` arguments, in order, as positional arguments.
pub open spec fn positional_phase<T: Ty>(s: Positional<T>, args: Seq<CallArgumentValue<T>>, n: int) -> Positional<T>
    decreases n,
{
    if n <= 0 {
        s
    } else {
        positional_step(positional_phase(s, args, n - 1), args[n - 1])
    }
}

/// A positional argument arrives while binding goes on and the position is
/// past the missing parameters: there is no parameter to give it to.
pub open spec fn step_overruns<T>(s: Positional<T>, a: CallArgumentValue<T>) -> bool {
    !s.done && a.name is None && !(0 <= s.at < s.st.missing.len())
}

/// Whether one of the first `n` arguments overruns the missing parameters.
pub open spec fn positional_overruns<T: Ty>(s: Positional<T>, args: Seq<CallArgumentValue<T>>, n: int) -> bool
    decreases n,
{
    if n <= 0 {
        false
    } else {
        positional_overruns(s, args, n - 1) || step_overruns(positional_phase(s, args, n - 1), args[n - 1])
    }
}

/// The index of the first argument whose name the index of `ps` does not
/// hold.
pub open spec fn first_unexpected<T>(args: Seq<CallArgumentValue<T>>, ps: Seq<ParameterValue<T>>, flags: Seq<bool>) -> Option<
    int,
>
    decreases args.len(),
{
    if args.len() == 0 {
        None
    } else {
        match first_unexpected(args.drop_last(), ps, flags) {
            Some(k) => Some(k),
            None => if args.last().name matches Some(n) && indexed_pos(ps, flags, n@) is None {
                Some(args.len() - 1)
            } else {
                None
            },
        }
    }
}

/// The matching after the named arguments and defaults.
pub open spec fn after_named<T: Ty>(args: Seq<CallArgumentValue<T>>, ps: Seq<ParameterValue<T>>, flags: Seq<bool>) -> Matching<T> {
    named_phase(args, ps, flags, ps.len() as int)
}

/// Where binding positional arguments starts.
pub open spec fn positional_start<T: Ty>(args: Seq<CallArgumentValue<T>>, ps: Seq<ParameterValue<T>>, flags: Seq<bool>) -> Positional<
    T,
> {
    Positional { st: after_named(args, ps, flags), at: 0, done: false }
}

/// The matching at the end: positional arguments are bound only where the
/// index still holds a missing parameter after the named ones.
pub open spec fn final_matching<T: Ty>(args: Seq<CallArgumentValue<T>>, ps: Seq<ParameterValue<T>>, flags: Seq<bool>) -> Matching<T> {
    if any_indexed(after_named(args, ps, flags).index) {
        positional_phase(positional_start(args, ps, flags), args, args.len() as int).st
    } else {
        after_named(args, ps, flags)
    }
}

/// Why arguments do not match parameters.
pub enum MatchFailure {
    /// An argument has a name that no parameter has.
    Unexpected(Seq<char>),
    /// These parameters are left without a value.
    Missing(Seq<Seq<char>>),
}

/// The values that the arguments `args` bind to the parameters `ps`, whose
/// index by name is `flags`: an argument named as no indexed parameter is
/// refused; then named arguments and defaults, then positional arguments
/// are bound; where the index still holds a missing parameter, all the
/// missing parameters are refused.
pub open spec fn match_arguments<T: Ty>(
    args: Seq<CallArgumentValue<T>>,
    ps: Seq<ParameterValue<T>>,
    flags: Seq<bool>,
) -> Result<Seq<(Seq<char>, T)>, MatchFailure> {
    match first_unexpected(args, ps, flags) {
        Some(k) => Err(MatchFailure::Unexpected(args[k].name->0@)),
        None => {
            let f = final_matching(args, ps, flags);
            if any_indexed(f.index) {
                Err(MatchFailure::Missing(param_names(f.missing)))
            } else {
                Ok(f.bound)
            }
        },
    }
}

/// The inputs on which matching cannot finish: a positional argument finds
/// no parameter at its position, or the missing parameters, to be listed
/// in the error, repeat a name.
pub open spec fn match_fails<T: Ty>(args: Seq<CallArgumentValue<T>>, ps: Seq<ParameterValue<T>>, flags: Seq<bool>) -> bool {
    &&& first_unexpected(args, ps, flags) is None
    &&& {
        ||| any_indexed(after_named(args, ps, flags).index) && positional_overruns(
            positional_start(args, ps, flags),
            args,
            args.len() as int,
        )
        ||| any_indexed(final_matching(args, ps, flags).index) && !param_names(
            final_matching(args, ps, flags).missing,
        ).no_duplicates()
    }
}

/// The entries `m` hold, name for name, clones of the values of `b`.
pub open spec fn clones_of<T: Clone>(m: Seq<(Seq<char>, T)>, b: Seq<(Seq<char>, T)>) -> bool {
    &&& m.len() == b.len()
    &&& forall|i: int| 0 <= i < m.len() ==> #[trigger] m[i].0 == b[i].0 && cloned(b[i].1, m[i].1)
}

/// `map_find` looks at names only.
proof fn lemma_map_find_names<T>(m: Seq<(Seq<char>, T)>, b: Seq<(Seq<char>, T)>, name: Seq<char>)
    requires
        m.len() == b.len(),
        forall|i: int| 0 <= i < m.len() ==> #[trigger] m[i].0 == b[i].0,
    ensures
        map_find(m, name) == map_find(b, name),
    decreases m.len(),
{
    if m.len() > 0 {
        assert forall|i: int| 0 <= i < m.len() - 1 implies #[trigger] m.drop_last()[i].0 == b.drop_last()[i].0 by {
            assert(m.drop_last()[i] == m[i]);
            assert(b.drop_last()[i] == b[i]);
        }
        lemma_map_find_names(m.drop_last(), b.drop_last(), name);
    }
}

/// The parameters that the indices `idx` pick from `ps`.
pub open spec fn pick<T>(ps: Seq<ParameterValue<T>>, idx: Seq<usize>) -> Seq<ParameterValue<T>> {
    idx.map_values(|i: usize| ps[i as int])
}

/// What stays true while matching: the missing parameters are those that
/// `missing` picks, `flags` is their index, which holds no name twice; the
/// map holds clones of the values bound.
pub open spec fn matching_inv<T: Clone>(
    st: Matching<T>,
    ps: Seq<ParameterValue<T>>,
    missing: Seq<usize>,
    flags: Seq<bool>,
    map: Seq<(Seq<char>, T)>,
) -> bool {
    &&& forall|j: int| 0 <= j < missing.len() ==> (#[trigger] missing[j]) < ps.len()
    &&& pick(ps, missing) == st.missing
    &&& flags == st.index
    &&& st.index.len() == st.missing.len()
    &&& index_unique(st.missing, st.index)
    &&& clones_of(map, st.bound)
}

/// The position in `missing` of the parameter that `flags` holds under
/// `name`.
fn position_in<T>(params: &ParameterValueList<T>, missing: &Vec<usize>, flags: &Vec<bool>, name: &Identifier) -> (r: Option<
    usize,
>)
    requires
        forall|q: int| 0 <= q < missing@.len() ==> (#[trigger] missing@[q]) < params@.len(),
        flags@.len() == missing@.len(),
    ensures
        r matches Some(j) ==> j < missing@.len() && flags@[j as int] && params@[missing@[j as int] as int].name@ == name@,
        r is None ==> forall|q: int|
            0 <= q < missing@.len() && #[trigger] flags@[q] ==> params@[missing@[q] as int].name@ != name@,
{
    for j in 0..missing.len()
        invariant
            forall|q: int| 0 <= q < missing@.len() ==> (#[trigger] missing@[q]) < params@.len(),
            flags@.len() == missing@.len(),
            forall|q: int| 0 <= q < j && #[trigger] flags@[q] ==> params@[missing@[q] as int].name@ != name@,
    {
        if flags[j] && params.at(missing[j]).name == *name {
            return Some(j);
        }
    }
    None
}

/// Binds a clone of `v` to `name`, and takes the parameter that the index
/// finds under `name` from the missing ones.
fn bind_value<T: Clone>(
    params: &ParameterValueList<T>,
    missing: &mut Vec<usize>,
    flags: &mut Vec<bool>,
    map: &mut ArgumentMap<T>,
    name: &Identifier,
    v: &T,
    Ghost(st): Ghost<Matching<T>>,
) -> (next: Ghost<Matching<T>>)
    requires
        matching_inv(st, params@, old(missing)@, old(flags)@, old(map)@),
    ensures
        next@ == bind(st, name@, *v),
        matching_inv(next@, params@, final(missing)@, final(flags)@, final(map)@),
{
    let c = v.clone();
    proof {
        lemma_map_find_names(map@, st.bound, name@);
        lemma_map_find(st.bound, name@);
        lemma_indexed_pos(st.missing, st.index, name@);
    }
    assert(cloned(*v, c));
    let ghost old_map = map@;
    map.insert(name.copy(), c);
    let ghost new_bound = map_insert(st.bound, name@, *v);
    proof {
        lemma_map_find(old_map, name@);
        assert forall|i: int| 0 <= i < map@.len() implies #[trigger] map@[i].0 == new_bound[i].0 && cloned(
            new_bound[i].1,
            map@[i].1,
        ) by {
            match map_find(old_map, name@) {
                Some(f) => {
                    if i != f {
                        assert(map@[i] == old_map[i]);
                        assert(new_bound[i] == st.bound[i]);
                    }
                },
                None => {
                    if i < old_map.len() {
                        assert(map@[i] == old_map[i]);
                        assert(new_bound[i] == st.bound[i]);
                    }
                },
            }
        }
    }
    assert(clones_of(map@, new_bound));
    let found = position_in(params, missing, flags, name);
    if let Some(j) = found {
        assert(st.missing[j as int] == params@[missing@[j as int] as int]);
        assert(st.missing[j as int].name@ == name@ && st.index[j as int]);
        assert(indexed_pos(st.missing, st.index, name@) == Some(j as int));
        proof {
            lemma_remove_unique(st.missing, st.index, j as int);
        }
        missing.remove(j);
        flags.remove(j);
        assert(pick(params@, missing@) =~= st.missing.remove(j as int));
    } else {
        assert forall|q: int| 0 <= q < st.missing.len() && #[trigger] st.index[q] implies st.missing[q].name@ != name@ by {
            assert(st.missing[q] == params@[missing@[q] as int]);
        }
        assert(indexed_pos(st.missing, st.index, name@) is None);
    }
    Ghost(bind(st, name@, *v))
}

/// Once an argument overruns the missing parameters, matching cannot
/// finish, whatever comes after.
proof fn lemma_overruns_stay<T: Ty>(s: Positional<T>, args: Seq<CallArgumentValue<T>>, k: int, n: int)
    requires
        0 <= k <= n,
        positional_overruns(s, args, k),
    ensures
        positional_overruns(s, args, n),
    decreases n - k,
{
    if k < n {
        lemma_overruns_stay(s, args, k + 1, n);
    }
}

impl<T: Ty + Clone> CallArgumentValueList<T> {
    /// The values of the parameters `parameter_values` for these arguments.
    ///
    /// An argument whose name the parameters' index does not hold is
    /// refused.  Each parameter takes the last argument of its name where
    /// its type fits, or else, where no argument has its name, its default
    /// value.  Then, where the index still holds a missing parameter, each
    /// positional argument, in order, goes to the missing parameter at the
    /// current position, where that parameter's name is not bound yet and
    /// the argument fits its type.  Where the index still holds a missing
    /// parameter at the end, all missing parameters are refused in one
    /// error.
    pub fn get_matching_arguments(&self, parameter_values: &ParameterValueList<T>) -> (r: Result<
        ArgumentMap<T>,
        EvalError,
    >)
        requires
            !match_fails(self@, parameter_values@, parameter_values.index()),
        ensures
            match_arguments(self@, parameter_values@, parameter_values.index()) matches Ok(b) ==> r matches Ok(m)
                && clones_of(m@, b),
            match_arguments(self@, parameter_values@, parameter_values.index()) matches Err(
                MatchFailure::Unexpected(n),
            ) ==> r matches Err(EvalError::UnexpectedArgument(id)) && id@ == n,
            match_arguments(self@, parameter_values@, parameter_values.index()) matches Err(
                MatchFailure::Missing(ns),
            ) ==> r matches Err(EvalError::MissingArguments(l)) && l@ == ns,
    {
        let ghost args = self@;
        let ghost ps = parameter_values@;
        let ghost fl = parameter_values.index();
        proof {
            use_type_invariant(parameter_values);
            parameter_values.lemma_well_indexed();
        }
        // Arguments named as no indexed parameter.
        for k in 0..self.arguments.len()
            invariant
                args == self@,
                ps == parameter_values@,
                fl == parameter_values.index(),
                first_unexpected(args.take(k as int), ps, fl) is None,
        {
            assert(args.take(k + 1).drop_last() =~= args.take(k as int));
            if let Some(n) = &self.arguments[k].name {
                if parameter_values.get(n).is_none() {
                    assert(first_unexpected(args.take(k + 1), ps, fl) == Some(k as int));
                    proof {
                        lemma_first_unexpected_stays(args, ps, fl, k as int + 1);
                    }
                    return Err(EvalError::UnexpectedArgument(n.copy()));
                }
            }
        }
        assert(args.take(args.len() as int) =~= args);
        // Named arguments and defaults.
        let n = parameter_values.len();
        let mut missing: Vec<usize> = Vec::new();
        let mut flags: Vec<bool> = Vec::new();
        for i in 0..n
            invariant
                n == ps.len(),
                ps == parameter_values@,
                fl == parameter_values.index(),
                fl.len() == ps.len(),
                missing@.len() == i,
                flags@.len() == i,
                forall|j: int| 0 <= j < i ==> #[trigger] missing@[j] == j,
                forall|j: int| 0 <= j < i ==> #[trigger] flags@[j] == fl[j],
        {
            missing.push(i);
            flags.push(parameter_values.is_indexed(i));
        }
        let mut map: ArgumentMap<T> = ArgumentMap::new();
        let ghost mut st = named_phase(args, ps, fl, 0);
        assert(pick(ps, missing@) =~= ps);
        assert(flags@ =~= fl);
        assert(clones_of(map@, st.bound));
        for i in 0..n
            invariant
                n == ps.len(),
                args == self@,
                ps == parameter_values@,
                fl == parameter_values.index(),
                st == named_phase(args, ps, fl, i as int),
                matching_inv(st, ps, missing@, flags@, map@),
        {
            let p = parameter_values.at(i);
            proof {
                lemma_last_named(args, p.name@);
            }
            match self.get_by_name(&p.name) {
                Some(arg) => {
                    let t = arg.value.ty();
                    if let TypeCheckResult::Matches = p.type_check(&t) {
                        let Ghost(next) = bind_value(
                            parameter_values,
                            &mut missing,
                            &mut flags,
                            &mut map,
                            &p.name,
                            &arg.value,
                            Ghost(st),
                        );
                        proof {
                            st = next;
                        }
                    }
                },
                None => {
                    if let Some(d) = &p.default_value {
                        let Ghost(next) = bind_value(
                            parameter_values,
                            &mut missing,
                            &mut flags,
                            &mut map,
                            &p.name,
                            d,
                            Ghost(st),
                        );
                        proof {
                            st = next;
                        }
                    }
                },
            }
        }
        assert(st == after_named(args, ps, fl));
        // Positional arguments, where the index still holds a missing
        // parameter.
        if any_flag(&flags) {
            let ghost start = positional_start(args, ps, fl);
            let ghost mut pos = start;
            let mut positional_index: usize = 0;
            let mut done = false;
            for k in 0..self.arguments.len()
                invariant
                    args == self@,
                    ps == parameter_values@,
                    fl == parameter_values.index(),
                    !match_fails(args, ps, fl),
                    first_unexpected(args, ps, fl) is None,
                    any_indexed(after_named(args, ps, fl).index),
                    start == positional_start(args, ps, fl),
                    pos == positional_phase(start, args, k as int),
                    !positional_overruns(start, args, k as int),
                    pos.at == positional_index,
                    pos.done == done,
                    matching_inv(pos.st, ps, missing@, flags@, map@),
            {
                proof {
                    if step_overruns(pos, args[k as int]) {
                        assert(positional_overruns(start, args, k as int + 1));
                        lemma_overruns_stay(start, args, k as int + 1, args.len() as int);
                        assert(false);
                    }
                    assert(!positional_overruns(start, args, k as int + 1));
                }
                let arg = &self.arguments[k];
                if !done && arg.name.is_none() {
                    assert(!step_overruns(pos, args[k as int]));
                    assert(positional_index < missing.len());
                    let pi = missing[positional_index];
                    assert(pos.st.missing[positional_index as int] == ps[pi as int]);
                    let p = parameter_values.at(pi);
                    if !map.contains_key(&p.name) {
                        proof {
                            lemma_map_find_names(map@, pos.st.bound, p.name@);
                        }
                        let t = arg.value.ty();
                        if let TypeCheckResult::Matches = p.type_check(&t) {
                            let Ghost(next) = bind_value(
                                parameter_values,
                                &mut missing,
                                &mut flags,
                                &mut map,
                                &p.name,
                                &arg.value,
                                Ghost(pos.st),
                            );
                            if positional_index >= missing.len() {
                                done = true;
                            }
                            proof {
                                pos = Positional { st: next, at: pos.at, done: pos.at >= next.missing.len() };
                            }
                        }
                    } else {
                        proof {
                            lemma_map_find_names(map@, pos.st.bound, p.name@);
                            pos = Positional { st: pos.st, at: pos.at + 1, done: false };
                        }
                        positional_index = positional_index + 1;
                    }
                }
            }
            proof {
                st = pos.st;
            }
        }
        assert(st == final_matching(args, ps, fl));
        // Parameters left without a value, where the index holds one.
        if any_flag(&flags) {
            let mut names = IdentifierList::new();
            for j in 0..missing.len()
                invariant
                    ps == parameter_values@,
                    matching_inv(st, ps, missing@, flags@, map@),
                    param_names(st.missing).no_duplicates(),
                    names@ == param_names(st.missing).take(j as int),
            {
                let p = parameter_values.at(missing[j]);
                assert(st.missing[j as int] == p);
                proof {
                    let ns = param_names(st.missing);
                    assert(ns.take(j + 1) =~= ns.take(j as int).push(p.name@));
                    if names@.contains(p.name@) {
                        let q = choose|q: int| 0 <= q < names@.len() && names@[q] == p.name@;
                        assert(ns[q] == ns[j as int]);
                    }
                }
                match names.push(p.name.copy()) {
                    Ok(()) => {},
                    Err(_) => {},
                }
            }
            assert(param_names(st.missing).take(missing.len() as int) =~= param_names(st.missing));
            return Err(EvalError::MissingArguments(names));
        }
        Ok(map)
    }
}

/// Whether any flag is set.
fn any_flag(flags: &Vec<bool>) -> (r: bool)
    ensures
        r == any_indexed(flags@),
{
    for i in 0..flags.len()
        invariant
            forall|j: int| 0 <= j < i ==> !(#[trigger] flags@[j]),
    {
        if flags[i] {
            return true;
        }
    }
    false
}

/// Once an unexpected argument is found, later arguments do not change
/// which one is first.
proof fn lemma_first_unexpected_stays<T>(
    args: Seq<CallArgumentValue<T>>,
    ps: Seq<ParameterValue<T>>,
    flags: Seq<bool>,
    n: int,
)
    requires
        0 <= n <= args.len(),
        first_unexpected(args.take(n), ps, flags) is Some,
    ensures
        first_unexpected(args, ps, flags) == first_unexpected(args.take(n), ps, flags),
    decreases args.len() - n,
{
    if n < args.len() {
        assert(args.take(n + 1).drop_last() =~= args.take(n));
        lemma_first_unexpected_stays(args, ps, flags, n + 1);
    } else {
        assert(args.take(n) =~= args);
    }
}

// ---------------------------------------------------------------------------
// What a successful match binds
// ---------------------------------------------------------------------------

/// Every parameter of `ps` either still misses or is bound, and every name
/// that misses or is bound is that of a parameter.
pub open spec fn accounted<T>(st: Matching<T>, ps: Seq<ParameterValue<T>>) -> bool {
    &&& forall|i: int| 0 <= i < ps.len() ==> param_names(st.missing).contains(#[trigger] ps[i].name@) || map_find(
        st.bound,
        ps[i].name@,
    ) is Some
    &&& forall|j: int| 0 <= j < st.missing.len() ==> param_names(ps).contains((#[trigger] st.missing[j]).name@)
    &&& forall|k: int| 0 <= k < st.bound.len() ==> param_names(ps).contains((#[trigger] st.bound[k]).0)
}

/// A matching in which the index holds every missing parameter, the missing
/// parameters have distinct names, and none of their names is bound.
pub open spec fn plain<T>(st: Matching<T>) -> bool {
    &&& st.index.len() == st.missing.len()
    &&& forall|j: int| 0 <= j < st.index.len() ==> #[trigger] st.index[j]
    &&& param_names(st.missing).no_duplicates()
    &&& forall|j: int| 0 <= j < st.missing.len() ==> map_find(st.bound, (#[trigger] st.missing[j]).name@) is None
}

/// Binding a name other than `x` leaves whether `x` is bound.
proof fn lemma_insert_other<T>(m: Seq<(Seq<char>, T)>, name: Seq<char>, v: T, x: Seq<char>)
    requires
        x != name,
    ensures
        (map_find(map_insert(m, name, v), x) is None) == (map_find(m, x) is None),
{
    let u = map_insert(m, name, v);
    lemma_map_find(m, name);
    lemma_map_find(m, x);
    lemma_map_find(u, x);
    if let Some(f) = map_find(u, x) {
        match map_find(m, name) {
            Some(g) => {
                assert(f != g);
                assert(u[f] == m[f]);
            },
            None => {
                assert(f != m.len());
                assert(u[f] == m[f]);
            },
        }
    }
    if let Some(f) = map_find(m, x) {
        match map_find(m, name) {
            Some(g) => {
                assert(u[f] == m[f]);
            },
            None => {
                assert(u[f] == m[f]);
            },
        }
    }
}

/// Binding a parameter's name in a plain matching keeps it plain, and keeps
/// every parameter accounted for.
proof fn lemma_bind_plain<T>(st: Matching<T>, ps: Seq<ParameterValue<T>>, name: Seq<char>, v: T)
    requires
        plain(st),
        accounted(st, ps),
        param_names(ps).contains(name),
    ensures
        plain(bind(st, name, v)),
        accounted(bind(st, name, v), ps),
{
    let nx = bind(st, name, v);
    assert(index_unique(st.missing, st.index)) by {
        assert forall|i: int, j: int|
            #![trigger st.index[i], st.index[j]]
            0 <= i < st.missing.len() && 0 <= j < st.missing.len() && i != j && st.index[i] && st.index[j] implies st.missing[i].name@
            != st.missing[j].name@ by {
            assert(param_names(st.missing)[i] != param_names(st.missing)[j]);
        }
    }
    lemma_indexed_pos(st.missing, st.index, name);
    lemma_map_find(st.bound, name);
    let r = indexed_pos(st.missing, st.index, name);
    // Which old position each new missing parameter comes from.
    assert forall|q: int| #![trigger nx.missing[q]] 0 <= q < nx.missing.len() implies exists|q0: int|
        0 <= q0 < st.missing.len() && #[trigger] st.missing[q0] == nx.missing[q] && st.missing[q0].name@ != name by {
        match r {
            Some(i) => {
                let q0 = if q < i { q } else { q + 1 };
                assert(st.missing[q0] == nx.missing[q]);
                assert(st.index[q0]);
            },
            None => {
                assert(st.missing[q] == nx.missing[q]);
                assert(st.index[q]);
            },
        }
    }
    // The index stays full.
    assert forall|j: int| 0 <= j < nx.index.len() implies #[trigger] nx.index[j] by {
        match r {
            Some(i) => {
                let j0 = if j < i { j } else { j + 1 };
                assert(nx.index[j] == st.index[j0]);
            },
            None => {},
        }
    }
    // Names stay distinct.
    assert forall|a: int, b: int| 0 <= a < b < nx.missing.len() implies param_names(nx.missing)[a] != param_names(
        nx.missing,
    )[b] by {
        match r {
            Some(i) => {
                let a0 = if a < i { a } else { a + 1 };
                let b0 = if b < i { b } else { b + 1 };
                assert(nx.missing[a] == st.missing[a0] && nx.missing[b] == st.missing[b0]);
                assert(param_names(st.missing)[a0] != param_names(st.missing)[b0]);
            },
            None => {
                assert(param_names(st.missing)[a] != param_names(st.missing)[b]);
            },
        }
    }
    // No missing name is bound.
    assert forall|q: int| 0 <= q < nx.missing.len() implies map_find(nx.bound, (#[trigger] nx.missing[q]).name@) is None by {
        let q0 = choose|q0: int| 0 <= q0 < st.missing.len() && #[trigger] st.missing[q0] == nx.missing[q] && st.missing[q0].name@ != name;
        lemma_insert_other(st.bound, name, v, st.missing[q0].name@);
    }
    // Every parameter stays accounted for.
    assert forall|i: int| 0 <= i < ps.len() implies param_names(nx.missing).contains(#[trigger] ps[i].name@)
        || map_find(nx.bound, ps[i].name@) is Some by {
        let x = ps[i].name@;
        if x == name {
            lemma_map_find(nx.bound, name);
            match map_find(st.bound, name) {
                Some(f) => assert(nx.bound[f].0 == name),
                None => assert(nx.bound[st.bound.len() as int].0 == name),
            }
        } else if param_names(st.missing).contains(x) {
            let q = choose|q: int| 0 <= q < param_names(st.missing).len() && param_names(st.missing)[q] == x;
            assert(st.missing[q].name@ == x);
            assert(st.index[q]);
            match r {
                Some(ri) => {
                    let q1 = if q < ri { q } else { q - 1 };
                    assert(q != ri);
                    assert(nx.missing[q1] == st.missing[q]);
                    assert(param_names(nx.missing)[q1] == x);
                },
                None => {
                    assert(param_names(nx.missing)[q] == x);
                },
            }
        } else {
            lemma_insert_other(st.bound, name, v, x);
        }
    }
    assert forall|j: int| 0 <= j < nx.missing.len() implies param_names(ps).contains((#[trigger] nx.missing[j]).name@) by {
        let q0 = choose|q0: int| 0 <= q0 < st.missing.len() && #[trigger] st.missing[q0] == nx.missing[j] && st.missing[q0].name@ != name;
    }
    assert forall|k: int| 0 <= k < nx.bound.len() implies param_names(ps).contains((#[trigger] nx.bound[k]).0) by {
        match map_find(st.bound, name) {
            Some(g) => {
                if k != g {
                    assert(nx.bound[k] == st.bound[k]);
                }
            },
            None => {
                if k < st.bound.len() {
                    assert(nx.bound[k] == st.bound[k]);
                }
            },
        }
    }
}

/// With a full index and distinct names, the named arguments and defaults
/// keep the matching plain and every parameter accounted for.
proof fn lemma_named_plain<T: Ty>(args: Seq<CallArgumentValue<T>>, ps: Seq<ParameterValue<T>>, flags: Seq<bool>, n: int)
    requires
        0 <= n <= ps.len(),
        flags.len() == ps.len(),
        forall|j: int| 0 <= j < flags.len() ==> #[trigger] flags[j],
        param_names(ps).no_duplicates(),
    ensures
        plain(named_phase(args, ps, flags, n)),
        accounted(named_phase(args, ps, flags, n), ps),
    decreases n,
{
    if n <= 0 {
        let st = named_phase(args, ps, flags, 0);
        assert forall|i: int| 0 <= i < ps.len() implies param_names(st.missing).contains(#[trigger] ps[i].name@) by {
            assert(param_names(ps)[i] == ps[i].name@);
        }
        assert forall|j: int| 0 <= j < st.missing.len() implies param_names(ps).contains((#[trigger] st.missing[j]).name@) by {
            assert(param_names(ps)[j] == ps[j].name@);
        }
    } else {
        lemma_named_plain(args, ps, flags, n - 1);
        assert(param_names(ps)[n - 1] == ps[n - 1].name@);
        let st = named_phase(args, ps, flags, n - 1);
        let p = ps[n - 1];
        match last_named(args, p.name@) {
            Some(k) => if type_fits(p, args[k].value.spec_ty()) {
                lemma_bind_plain(st, ps, p.name@, args[k].value);
            },
            None => if let Some(d) = p.default_value {
                lemma_bind_plain(st, ps, p.name@, d);
            },
        }
    }
}

/// From a plain matching, positional arguments always go to the first
/// missing parameter, keep the matching plain and every parameter accounted
/// for, and end binding only when no parameter misses.
proof fn lemma_positional_plain<T: Ty>(
    s: Positional<T>,
    args: Seq<CallArgumentValue<T>>,
    ps: Seq<ParameterValue<T>>,
    n: int,
)
    requires
        plain(s.st),
        accounted(s.st, ps),
        s.at == 0,
        !s.done ==> s.st.missing.len() > 0,
    ensures
        plain(positional_phase(s, args, n).st),
        accounted(positional_phase(s, args, n).st, ps),
        positional_phase(s, args, n).at == 0,
        !positional_phase(s, args, n).done ==> positional_phase(s, args, n).st.missing.len() > 0,
    decreases n,
{
    if n > 0 {
        lemma_positional_plain(s, args, ps, n - 1);
        let c = positional_phase(s, args, n - 1);
        let a = args[n - 1];
        if !c.done && a.name is None {
            let p = c.st.missing[0];
            assert(map_find(c.st.bound, p.name@) is None);
            if type_fits(p, a.value.spec_ty()) {
                lemma_bind_plain(c.st, ps, p.name@, a.value);
            }
        }
    }
}

/// Where the arguments match parameters with distinct names, all of which
/// the index holds, every parameter is bound, and every name bound is that
/// of a parameter.
pub proof fn lemma_match_binds_parameters<T: Ty>(
    args: Seq<CallArgumentValue<T>>,
    ps: Seq<ParameterValue<T>>,
    flags: Seq<bool>,
)
    requires
        flags.len() == ps.len(),
        forall|j: int| 0 <= j < flags.len() ==> #[trigger] flags[j],
        param_names(ps).no_duplicates(),
        match_arguments(args, ps, flags) is Ok,
    ensures
        forall|i: int|
            0 <= i < ps.len() ==> map_find(match_arguments(args, ps, flags)->Ok_0, #[trigger] ps[i].name@) is Some,
        forall|k: int| 0 <= k < match_arguments(args, ps, flags)->Ok_0.len() ==> param_names(ps).contains(
            (#[trigger] match_arguments(args, ps, flags)->Ok_0[k]).0,
        ),
{
    lemma_named_plain(args, ps, flags, ps.len() as int);
    let st0 = after_named(args, ps, flags);
    let f = final_matching(args, ps, flags);
    if any_indexed(st0.index) {
        let j = choose|j: int| 0 <= j < st0.index.len() && #[trigger] st0.index[j];
        lemma_positional_plain(positional_start(args, ps, flags), args, ps, args.len() as int);
    }
    if f.missing.len() > 0 {
        assert(f.index[0]);
        assert(any_indexed(f.index));
    }
}

// ---------------------------------------------------------------------------
// Which value each parameter takes
// ---------------------------------------------------------------------------

/// The value bound to `name`, if there is one.
pub open spec fn value_of<T>(m: Seq<(Seq<char>, T)>, name: Seq<char>) -> Option<T> {
    match map_find(m, name) {
        Some(i) => Some(m[i].1),
        None => None,
    }
}

/// `map_find` finds the last entry of the name.
proof fn lemma_map_find_last<T>(m: Seq<(Seq<char>, T)>, name: Seq<char>)
    ensures
        map_find(m, name) matches Some(f) ==> 0 <= f < m.len() && m[f].0 == name && forall|j: int|
            f < j < m.len() ==> (#[trigger] m[j]).0 != name,
        map_find(m, name) is None ==> forall|j: int| 0 <= j < m.len() ==> (#[trigger] m[j]).0 != name,
        forall|i: int|
            0 <= i < m.len() && (#[trigger] m[i]).0 == name ==> map_find(m, name) is Some && i <= map_find(
                m,
                name,
            )->Some_0,
    decreases m.len(),
{
    if m.len() > 0 {
        let d = m.drop_last();
        let n = m.len() - 1;
        lemma_map_find_last(d, name);
        assert forall|j: int| 0 <= j < n implies #[trigger] m[j] == d[j] by {}
        if m[n].0 == name {
            assert(m.last().0 == name);
            assert(map_find(m, name) == Some(n));
        } else {
            assert(m.last().0 != name);
            assert(map_find(m, name) == map_find(d, name));
            match map_find(d, name) {
                Some(f) => {
                    assert(d[f] == m[f]);
                    assert forall|j: int| f < j < m.len() implies (#[trigger] m[j]).0 != name by {
                        if j < n {
                            assert(d[j] == m[j]);
                        }
                    }
                },
                None => {
                    assert forall|j: int| 0 <= j < m.len() implies (#[trigger] m[j]).0 != name by {
                        if j < n {
                            assert(d[j] == m[j]);
                        }
                    }
                },
            }
            assert forall|i: int| 0 <= i < m.len() && (#[trigger] m[i]).0 == name implies map_find(m, name) is Some
                && i <= map_find(m, name)->Some_0 by {
                assert(i < n);
                assert(d[i] == m[i]);
            }
        }
    }
}

/// Binding a value to a name gives that name the value and leaves the
/// value of every other name.
pub proof fn lemma_value_insert<T>(m: Seq<(Seq<char>, T)>, name: Seq<char>, v: T, x: Seq<char>)
    ensures
        value_of(map_insert(m, name, v), x) == if x == name {
            Some(v)
        } else {
            value_of(m, x)
        },
{
    let u = map_insert(m, name, v);
    lemma_map_find_last(m, name);
    lemma_map_find_last(m, x);
    lemma_map_find_last(u, x);
    match map_find(m, name) {
        Some(f) => {
            assert forall|j: int| 0 <= j < u.len() && j != f implies #[trigger] u[j] == m[j] by {}
            if x == name {
                assert(u[f].0 == name);
                assert forall|j: int| f < j < u.len() implies (#[trigger] u[j]).0 != name by {
                    assert(u[j] == m[j]);
                }
            } else {
                match map_find(m, x) {
                    Some(g) => {
                        assert(g != f);
                        assert(u[g] == m[g]);
                        assert forall|j: int| g < j < u.len() implies (#[trigger] u[j]).0 != x by {
                            if j != f {
                                assert(u[j] == m[j]);
                            }
                        }
                    },
                    None => {
                        if let Some(h) = map_find(u, x) {
                            if h != f {
                                assert(u[h] == m[h]);
                            }
                        }
                    },
                }
            }
        },
        None => {
            let n = m.len() as int;
            assert(u[n] == (name, v));
            assert forall|j: int| 0 <= j < n implies #[trigger] u[j] == m[j] by {}
            if x == name {
            } else {
                match map_find(m, x) {
                    Some(g) => {
                        assert(u[g] == m[g]);
                        assert forall|j: int| g < j < u.len() implies (#[trigger] u[j]).0 != x by {
                            if j < n {
                                assert(u[j] == m[j]);
                            }
                        }
                    },
                    None => {
                        if let Some(h) = map_find(u, x) {
                            if h < n {
                                assert(u[h] == m[h]);
                            }
                        }
                    },
                }
            }
        },
    }
}

/// Binding in a matching gives the name the value and leaves the value of
/// every other name.
proof fn lemma_value_bind<T>(st: Matching<T>, name: Seq<char>, v: T, x: Seq<char>)
    ensures
        value_of(bind(st, name, v).bound, x) == if x == name {
            Some(v)
        } else {
            value_of(st.bound, x)
        },
{
    lemma_value_insert(st.bound, name, v, x);
}

/// The value that the named arguments and defaults give the parameter `p`:
/// the last argument of its name where its type fits, nothing where it does
/// not, and its default where no argument has its name.
pub open spec fn named_value<T: Ty>(args: Seq<CallArgumentValue<T>>, p: ParameterValue<T>) -> Option<T> {
    match last_named(args, p.name@) {
        Some(k) => if type_fits(p, args[k].value.spec_ty()) {
            Some(args[k].value)
        } else {
            None
        },
        None => p.default_value,
    }
}

/// The index covers the missing parameters, and every missing parameter is
/// one of `ps`.
pub open spec fn missing_from<T>(st: Matching<T>, ps: Seq<ParameterValue<T>>) -> bool {
    &&& st.index.len() == st.missing.len()
    &&& forall|j: int| 0 <= j < st.missing.len() ==> ps.contains(#[trigger] st.missing[j])
}

/// Binding keeps the missing parameters among `ps`.
proof fn lemma_bind_missing_from<T>(st: Matching<T>, ps: Seq<ParameterValue<T>>, name: Seq<char>, v: T)
    requires
        missing_from(st, ps),
    ensures
        missing_from(bind(st, name, v), ps),
{
    let nx = bind(st, name, v);
    assert forall|j: int| 0 <= j < nx.missing.len() implies ps.contains(#[trigger] nx.missing[j]) by {
        let j0 = match indexed_pos(st.missing, st.index, name) {
            Some(r) => if j < r { j } else { j + 1 },
            None => j,
        };
        assert(nx.missing[j] == st.missing[j0]);
        assert(ps.contains(st.missing[j0]));
    }
}

/// After the first `n` parameters, each of them has the value that
/// `named_value` gives it, the others are unbound, and the missing
/// parameters are among `ps`.
proof fn lemma_named_values<T: Ty>(args: Seq<CallArgumentValue<T>>, ps: Seq<ParameterValue<T>>, flags: Seq<bool>, n: int)
    requires
        0 <= n <= ps.len(),
        flags.len() == ps.len(),
        param_names(ps).no_duplicates(),
    ensures
        forall|i: int| 0 <= i < n ==> value_of(named_phase(args, ps, flags, n).bound, (#[trigger] ps[i]).name@) == named_value(args, ps[i]),
        forall|i: int| n <= i < ps.len() ==> value_of(named_phase(args, ps, flags, n).bound, (#[trigger] ps[i]).name@) is None,
        missing_from(named_phase(args, ps, flags, n), ps),
    decreases n,
{
    if n <= 0 {
        let st = named_phase(args, ps, flags, 0);
        assert forall|j: int| 0 <= j < st.missing.len() implies ps.contains(#[trigger] st.missing[j]) by {
            assert(st.missing == ps);
            assert(ps[j] == st.missing[j]);
        }
    } else {
        lemma_named_values(args, ps, flags, n - 1);
        let st = named_phase(args, ps, flags, n - 1);
        let p = ps[n - 1];
        let nx = named_phase(args, ps, flags, n);
        assert forall|i: int| 0 <= i < ps.len() && i != n - 1 implies (#[trigger] ps[i]).name@ != p.name@ by {
            assert(param_names(ps)[i] == ps[i].name@);
            assert(param_names(ps)[n - 1] == p.name@);
        }
        match last_named(args, p.name@) {
            Some(k) => if type_fits(p, args[k].value.spec_ty()) {
                assert forall|i: int| 0 <= i < ps.len() implies value_of(nx.bound, (#[trigger] ps[i]).name@) == if i == n - 1 {
                    Some(args[k].value)
                } else {
                    value_of(st.bound, ps[i].name@)
                } by {
                    lemma_value_bind(st, p.name@, args[k].value, ps[i].name@);
                }
                lemma_bind_missing_from(st, ps, p.name@, args[k].value);
            },
            None => if let Some(d) = p.default_value {
                assert forall|i: int| 0 <= i < ps.len() implies value_of(nx.bound, (#[trigger] ps[i]).name@) == if i == n - 1 {
                    Some(d)
                } else {
                    value_of(st.bound, ps[i].name@)
                } by {
                    lemma_value_bind(st, p.name@, d, ps[i].name@);
                }
                lemma_bind_missing_from(st, ps, p.name@, d);
            },
        }
    }
}

/// Positional arguments change no value that was bound when they began; a
/// parameter that they bind takes the value of a positional argument whose
/// type fits it.
proof fn lemma_positional_values<T: Ty>(
    s: Positional<T>,
    args: Seq<CallArgumentValue<T>>,
    ps: Seq<ParameterValue<T>>,
    n: int,
)
    requires
        0 <= n <= args.len(),
        plain(s.st),
        accounted(s.st, ps),
        s.at == 0,
        !s.done ==> s.st.missing.len() > 0,
        missing_from(s.st, ps),
        param_names(ps).no_duplicates(),
    ensures
        missing_from(positional_phase(s, args, n).st, ps),
        forall|x: Seq<char>| #[trigger] value_of(s.st.bound, x) is Some ==> value_of(positional_phase(s, args, n).st.bound, x)
            == value_of(s.st.bound, x),
        forall|i: int|
            0 <= i < ps.len() && value_of(s.st.bound, (#[trigger] ps[i]).name@) is None && value_of(
                positional_phase(s, args, n).st.bound,
                ps[i].name@,
            ) is Some ==> exists|j: int|
                0 <= j < args.len() && (#[trigger] args[j]).name is None && type_fits(ps[i], args[j].value.spec_ty())
                    && value_of(positional_phase(s, args, n).st.bound, ps[i].name@) == Some(args[j].value),
    decreases n,
{
    if n > 0 {
        lemma_positional_values(s, args, ps, n - 1);
        lemma_positional_plain(s, args, ps, n - 1);
        let c = positional_phase(s, args, n - 1);
        let a = args[n - 1];
        let nx = positional_phase(s, args, n);
        if !c.done && a.name is None {
            let q = c.st.missing[0];
            if type_fits(q, a.value.spec_ty()) {
                assert(map_find(c.st.bound, q.name@) is None);
                lemma_bind_missing_from(c.st, ps, q.name@, a.value);
                let i0 = choose|i: int| 0 <= i < ps.len() && ps[i] == c.st.missing[0];
                assert(nx.st == bind(c.st, q.name@, a.value));
                assert forall|x: Seq<char>| #[trigger] value_of(s.st.bound, x) is Some implies value_of(nx.st.bound, x)
                    == value_of(s.st.bound, x) by {
                    lemma_value_bind(c.st, q.name@, a.value, x);
                    if x == q.name@ {
                        assert(value_of(c.st.bound, x) is None);
                    }
                }
                assert forall|i: int|
                    0 <= i < ps.len() && value_of(s.st.bound, (#[trigger] ps[i]).name@) is None && value_of(nx.st.bound, ps[i].name@)
                        is Some implies exists|j: int|
                    0 <= j < args.len() && (#[trigger] args[j]).name is None && type_fits(ps[i], args[j].value.spec_ty())
                        && value_of(nx.st.bound, ps[i].name@) == Some(args[j].value) by {
                    lemma_value_bind(c.st, q.name@, a.value, ps[i].name@);
                    if ps[i].name@ == q.name@ {
                        assert(param_names(ps)[i] == ps[i].name@);
                        assert(param_names(ps)[i0] == ps[i0].name@);
                        assert(i == i0);
                        assert(args[n - 1] == a);
                    }
                }
            }
        }
    }
}

/// Which value each parameter takes, where the arguments match parameters
/// with distinct names, all of which the index holds: a parameter that an
/// argument names takes the value of the last such argument where its type
/// fits; where it does not fit, the parameter is not given its default but
/// the value of a positional argument that fits it; a parameter that no
/// argument names takes its default where it has one, and else the value of
/// a positional argument that fits it.
pub proof fn lemma_match_values<T: Ty>(
    args: Seq<CallArgumentValue<T>>,
    ps: Seq<ParameterValue<T>>,
    flags: Seq<bool>,
    i: int,
)
    requires
        flags.len() == ps.len(),
        forall|j: int| 0 <= j < flags.len() ==> #[trigger] flags[j],
        param_names(ps).no_duplicates(),
        match_arguments(args, ps, flags) is Ok,
        0 <= i < ps.len(),
    ensures
        ({
            let k = last_named(args, ps[i].name@)->Some_0;
            last_named(args, ps[i].name@) is Some && type_fits(ps[i], args[k].value.spec_ty()) ==> value_of(
                match_arguments(args, ps, flags)->Ok_0,
                ps[i].name@,
            ) == Some(args[k].value)
        }),
        ({
            let k = last_named(args, ps[i].name@)->Some_0;
            last_named(args, ps[i].name@) is Some && !type_fits(ps[i], args[k].value.spec_ty()) ==> exists|j: int|
                0 <= j < args.len() && (#[trigger] args[j]).name is None && type_fits(ps[i], args[j].value.spec_ty())
                    && value_of(match_arguments(args, ps, flags)->Ok_0, ps[i].name@) == Some(args[j].value)
        }),
        last_named(args, ps[i].name@) is None && ps[i].default_value is Some ==> value_of(
            match_arguments(args, ps, flags)->Ok_0,
            ps[i].name@,
        ) == ps[i].default_value,
        last_named(args, ps[i].name@) is None && ps[i].default_value is None ==> exists|j: int|
            0 <= j < args.len() && (#[trigger] args[j]).name is None && type_fits(ps[i], args[j].value.spec_ty())
                && value_of(match_arguments(args, ps, flags)->Ok_0, ps[i].name@) == Some(args[j].value),
{
    lemma_match_binds_parameters(args, ps, flags);
    lemma_named_values(args, ps, flags, ps.len() as int);
    lemma_named_plain(args, ps, flags, ps.len() as int);
    let st0 = after_named(args, ps, flags);
    let b = match_arguments(args, ps, flags)->Ok_0;
    let x = ps[i].name@;
    assert(map_find(b, x) is Some);
    if any_indexed(st0.index) {
        let start = positional_start(args, ps, flags);
        lemma_positional_values(start, args, ps, args.len() as int);
        if value_of(st0.bound, x) is Some {
            assert(value_of(b, x) == value_of(st0.bound, x));
        }
    } else {
        assert(b == st0.bound);
    }
}

} // verus!
