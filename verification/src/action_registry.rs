//! Actions that can be called on a value, the adapters that make them from
//! native functions, the registry that finds them by namespace and name, and
//! the evaluation of a query text.
use crate::error::{Error, ErrorModel};
use crate::grammar::parsed_path;
use crate::parse::parse_query_simple;
use crate::query::{
    outcome_model, parameter_models, request_models, takes, ActionParameter,
    ActionParametersSlice, Environment, ParameterModel, RequestModel, TryActionParametersInto,
    TryParameterFrom,
};
use crate::text::push_text;
use std::fmt::Display;
use std::marker::PhantomData;
use vstd::hash_map::StringHashMap;
use vstd::prelude::*;
use vstd::string::to_string_from_display_ensures;
use vstd::string::StringExecFns;

verus! {

/// An action: it takes the current value and the parameters of a request,
/// and gives the next value or an error.
pub trait CallableAction<T> {
    /// The action can be called on every value with every parameter list.
    spec fn usable(&self) -> bool;

    /// Whether `outcome` may be what the action gives for `input` and
    /// `arguments`.
    spec fn may_give(
        &self,
        input: T,
        arguments: Seq<ParameterModel>,
        outcome: Result<T, ErrorModel>,
    ) -> bool;

    fn call_action(&self, input: T, arguments: &Vec<ActionParameter>) -> (r: Result<T, Error>)
        requires
            self.usable(),
        ensures
            self.may_give(input, parameter_models(arguments@), outcome_model(r)),
    ;
}

/// The message for a value that does not convert to the native input.
pub open spec fn input_failed(reason: Seq<char>) -> Seq<char> {
    "Input argument conversion failed; "@ + reason
}

/// The message for a native result that does not convert to a value.
pub open spec fn result_failed(reason: Seq<char>) -> Seq<char> {
    "Result conversion failed; "@ + reason
}

/// Whether converting `input` to the native type `In` may give `outcome`:
/// what `try_into` gives, or a `ConversionError` whose message ends in what
/// the error of `try_into` displays.
pub open spec fn input_converts<T: TryInto<In>, In>(
    input: T,
    outcome: Result<In, ErrorModel>,
) -> bool where <T as TryInto<In>>::Error: Display {
    exists|converted: Result<In, <T as TryInto<In>>::Error>|
        #![trigger call_ensures(<T as TryInto<In>>::try_into, (input,), converted)]
        call_ensures(<T as TryInto<In>>::try_into, (input,), converted) && match converted {
            Ok(x) => outcome == Ok::<In, ErrorModel>(x),
            Err(e) => exists|shown: String|
                #![trigger to_string_from_display_ensures(&e, shown)]
                to_string_from_display_ensures(&e, shown) && outcome == Err::<In, ErrorModel>(
                    ErrorModel::ConversionError { message: input_failed(shown@) },
                ),
        }
}

/// Whether converting the native result `y` back may give `outcome`.
pub open spec fn result_converts<Out: Into<T>, T>(y: Out, outcome: Result<T, ErrorModel>) -> bool {
    exists|back: T|
        #![trigger call_ensures(<Out as Into<T>>::into, (y,), back)]
        call_ensures(<Out as Into<T>>::into, (y,), back) && outcome == Ok::<T, ErrorModel>(back)
}

/// Whether converting the native result `y` back, which can fail, may give
/// `outcome`: what `try_into` gives, or a `ConversionError` whose message
/// ends in what the error of `try_into` displays.
pub open spec fn result_try_converts<Out: TryInto<T>, T>(
    y: Out,
    outcome: Result<T, ErrorModel>,
) -> bool where <Out as TryInto<T>>::Error: Display {
    exists|converted: Result<T, <Out as TryInto<T>>::Error>|
        #![trigger call_ensures(<Out as TryInto<T>>::try_into, (y,), converted)]
        call_ensures(<Out as TryInto<T>>::try_into, (y,), converted) && match converted {
            Ok(v) => outcome == Ok::<T, ErrorModel>(v),
            Err(e) => exists|shown: String|
                #![trigger to_string_from_display_ensures(&e, shown)]
                to_string_from_display_ensures(&e, shown) && outcome == Err::<T, ErrorModel>(
                    ErrorModel::ConversionError { message: result_failed(shown@) },
                ),
        }
}

/// Whether calling `function` on `x` and converting its result back may
/// give `outcome`.
pub open spec fn applies<In, Out: Into<T>, T, F: Fn(In) -> Out>(
    function: F,
    x: In,
    outcome: Result<T, ErrorModel>,
) -> bool {
    exists|y: Out|
        #![trigger call_ensures(function, (x,), y)]
        call_ensures(function, (x,), y) && result_converts::<Out, T>(y, outcome)
}

/// Whether calling `function` on `x` and converting its result back, which
/// can fail, may give `outcome`.
pub open spec fn applies_fallibly<T, F: Fn(i32) -> i32>(
    function: F,
    x: i32,
    outcome: Result<T, ErrorModel>,
) -> bool where i32: TryInto<T>, <i32 as TryInto<T>>::Error: Display {
    exists|y: i32|
        #![trigger call_ensures(function, (x,), y)]
        call_ensures(function, (x,), y) && result_try_converts::<i32, T>(y, outcome)
}

/// Whether calling `function` on `x` and `p` and converting its result back
/// may give `outcome`.
pub open spec fn applies_to_both<In1, In2, Out: Into<T>, T, F: Fn(In1, In2) -> Out>(
    function: F,
    x: In1,
    p: In2,
    outcome: Result<T, ErrorModel>,
) -> bool {
    exists|y: Out|
        #![trigger call_ensures(function, (x, p), y)]
        call_ensures(function, (x, p), y) && result_converts::<Out, T>(y, outcome)
}

/// Whether taking the first of `arguments` as an `In2` and calling
/// `function` on `x` and on it may give `outcome`: the error of the taking,
/// or what the call gives.
pub open spec fn takes_and_applies<
    In1,
    In2: TryParameterFrom,
    Out: Into<T>,
    T,
    F: Fn(In1, In2) -> Out,
>(function: F, x: In1, arguments: Seq<ParameterModel>, outcome: Result<T, ErrorModel>) -> bool {
    exists|second: Result<In2, ErrorModel>|
        #![trigger takes::<In2>(arguments, second)]
        takes::<In2>(arguments, second) && match second {
            Err(e) => outcome == Err::<T, ErrorModel>(e),
            Ok(p) => applies_to_both(function, x, p, outcome),
        }
}

fn convert_input<T: TryInto<In>, In>(input: T) -> (r: Result<In, Error>) where
    <T as TryInto<In>>::Error: Display,

    ensures
        input_converts::<T, In>(input, outcome_model(r)),
{
    match input.try_into() {
        Ok(x) => Ok(x),
        Err(e) => {
            let shown = e.to_string();
            let mut message = String::from_str("Input argument conversion failed; ");
            push_text(&mut message, shown.as_str());
            Err(Error::ConversionError { message })
        },
    }
}

fn convert_result<Out: Into<T>, T>(y: Out) -> (r: Result<T, Error>)
    ensures
        result_converts::<Out, T>(y, outcome_model(r)),
{
    Ok(y.into())
}

fn try_convert_result<Out: TryInto<T>, T>(y: Out) -> (r: Result<T, Error>) where
    <Out as TryInto<T>>::Error: Display,

    ensures
        result_try_converts::<Out, T>(y, outcome_model(r)),
{
    match y.try_into() {
        Ok(v) => Ok(v),
        Err(e) => {
            let shown = e.to_string();
            let mut message = String::from_str("Result conversion failed; ");
            push_text(&mut message, shown.as_str());
            Err(Error::ConversionError { message })
        },
    }
}

/// A native function from `i32` to `i32` is an action on every value type
/// that converts to and from `i32`. It takes no parameter.
impl<F, T> CallableAction<T> for F where
    F: Fn(i32) -> i32,
    T: TryInto<i32>,
    i32: TryInto<T>,
    <i32 as TryInto<T>>::Error: Display,
    <T as TryInto<i32>>::Error: Display,
 {
    open spec fn usable(&self) -> bool {
        forall|x: i32| call_requires(*self, (x,))
    }

    open spec fn may_give(
        &self,
        input: T,
        arguments: Seq<ParameterModel>,
        outcome: Result<T, ErrorModel>,
    ) -> bool {
        exists|first: Result<i32, ErrorModel>|
            #![trigger input_converts::<T, i32>(input, first)]
            input_converts::<T, i32>(input, first) && match first {
                Err(e) => outcome == Err::<T, ErrorModel>(e),
                Ok(x) => applies_fallibly(*self, x, outcome),
            }
    }

    fn call_action(&self, input: T, _arguments: &Vec<ActionParameter>) -> (r: Result<T, Error>) {
        match convert_input::<T, i32>(input) {
            Ok(x) => {
                let y = (*self)(x);
                try_convert_result::<i32, T>(y)
            },
            Err(e) => Err(e),
        }
    }
}

/// The adapter for a native function of one argument: the value, converted.
#[verifier::reject_recursive_types(In)]
#[verifier::reject_recursive_types(Out)]
#[verifier::reject_recursive_types(F)]
pub struct Function1<In, Out, F: Fn(In) -> Out> {
    pub function: F,
    pub marker: PhantomData<(In, Out)>,
}

impl<In, Out, F: Fn(In) -> Out> Function1<In, Out, F> {
    /// The adapter for `function`.
    pub fn new(function: F) -> (r: Self)
        ensures
            r.function == function,
    {
        Function1 { function, marker: PhantomData }
    }
}

impl<T, In, Out, F: Fn(In) -> Out> CallableAction<T> for Function1<In, Out, F> where
    T: TryInto<In>,
    Out: Into<T>,
    <T as TryInto<In>>::Error: Display,
 {
    open spec fn usable(&self) -> bool {
        forall|x: In| call_requires(self.function, (x,))
    }

    /// The value is converted to the native input, the function is called
    /// once, and its result is converted back. No parameter is taken.
    open spec fn may_give(
        &self,
        input: T,
        arguments: Seq<ParameterModel>,
        outcome: Result<T, ErrorModel>,
    ) -> bool {
        exists|first: Result<In, ErrorModel>|
            #![trigger input_converts::<T, In>(input, first)]
            input_converts::<T, In>(input, first) && match first {
                Err(e) => outcome == Err::<T, ErrorModel>(e),
                Ok(x) => applies(self.function, x, outcome),
            }
    }

    fn call_action(&self, input: T, _arguments: &Vec<ActionParameter>) -> (r: Result<T, Error>) {
        match convert_input::<T, In>(input) {
            Ok(x) => {
                let y = (self.function)(x);
                convert_result::<Out, T>(y)
            },
            Err(e) => Err(e),
        }
    }
}

/// The adapter for a native function of two arguments: the value, converted,
/// and the first parameter, read as the second native type.
#[verifier::reject_recursive_types(In1)]
#[verifier::reject_recursive_types(In2)]
#[verifier::reject_recursive_types(Out)]
#[verifier::reject_recursive_types(F)]
pub struct Function2<In1, In2, Out, F: Fn(In1, In2) -> Out> {
    pub function: F,
    pub marker: PhantomData<(In1, In2, Out)>,
}

impl<In1, In2, Out, F: Fn(In1, In2) -> Out> Function2<In1, In2, Out, F> {
    /// The adapter for `function`.
    pub fn new(function: F) -> (r: Self)
        ensures
            r.function == function,
    {
        Function2 { function, marker: PhantomData }
    }
}

impl<T, In1, In2, Out, F: Fn(In1, In2) -> Out> CallableAction<T> for Function2<
    In1,
    In2,
    Out,
    F,
> where
    T: TryInto<In1>,
    In2: TryParameterFrom,
    Out: Into<T>,
    <T as TryInto<In1>>::Error: Display,
 {
    open spec fn usable(&self) -> bool {
        forall|x: In1, p: In2| call_requires(self.function, (x, p))
    }

    /// The value is converted to the first native input; then the first
    /// parameter is taken and read as the second; then the function is
    /// called once, and its result is converted back.
    open spec fn may_give(
        &self,
        input: T,
        arguments: Seq<ParameterModel>,
        outcome: Result<T, ErrorModel>,
    ) -> bool {
        exists|first: Result<In1, ErrorModel>|
            #![trigger input_converts::<T, In1>(input, first)]
            input_converts::<T, In1>(input, first) && match first {
                Err(e) => outcome == Err::<T, ErrorModel>(e),
                Ok(x) => takes_and_applies(self.function, x, arguments, outcome),
            }
    }

    fn call_action(&self, input: T, arguments: &Vec<ActionParameter>) -> (r: Result<T, Error>) {
        match convert_input::<T, In1>(input) {
            Ok(x) => {
                let mut par = ActionParametersSlice(arguments.as_slice());
                let mut env = ();
                let taken: Result<In2, Error> = par.try_parameters_into(&mut env);
                match taken {
                    Ok(p) => {
                        let y = (self.function)(x, p);
                        convert_result::<Out, T>(y)
                    },
                    Err(e) => Err(e),
                }
            },
            Err(e) => Err(e),
        }
    }
}

/// A boxed action is the action in the box.
impl<T> CallableAction<T> for Box<dyn CallableAction<T>> {
    open spec fn usable(&self) -> bool {
        <dyn CallableAction<T> as CallableAction<T>>::usable(&**self)
    }

    open spec fn may_give(
        &self,
        input: T,
        arguments: Seq<ParameterModel>,
        outcome: Result<T, ErrorModel>,
    ) -> bool {
        <dyn CallableAction<T> as CallableAction<T>>::may_give(&**self, input, arguments, outcome)
    }

    fn call_action(&self, input: T, arguments: &Vec<ActionParameter>) -> (r: Result<T, Error>) {
        <dyn CallableAction<T> as CallableAction<T>>::call_action(&**self, input, arguments)
    }
}

/// The actions of a registry: by namespace, then by name.
pub type Actions<A> = Map<Seq<char>, Map<Seq<char>, A>>;

/// The message for a namespace that the registry does not know.
pub open spec fn no_namespace_message(name: Seq<char>, ns: Seq<char>) -> Seq<char> {
    "Action "@ + name + " not registered in namespace "@ + ns + "; no such namespace"@
}

/// The message for a name that a known namespace does not hold.
pub open spec fn no_action_message(name: Seq<char>, ns: Seq<char>) -> Seq<char> {
    "Action "@ + name + " not registered in namespace "@ + ns
}

/// Whether calling `name` of namespace `ns` on `input` may give `outcome`:
/// `ActionNotRegistered` for an unknown namespace, and, with another
/// message, for an unknown name in a known namespace; else what the action
/// found may give.
pub open spec fn dispatches<T, A: CallableAction<T>>(
    actions: Actions<A>,
    ns: Seq<char>,
    name: Seq<char>,
    input: T,
    arguments: Seq<ParameterModel>,
    outcome: Result<T, ErrorModel>,
) -> bool {
    if !actions.contains_key(ns) {
        outcome == Err::<T, ErrorModel>(
            ErrorModel::ActionNotRegistered { message: no_namespace_message(name, ns) },
        )
    } else if !actions[ns].contains_key(name) {
        outcome == Err::<T, ErrorModel>(
            ErrorModel::ActionNotRegistered { message: no_action_message(name, ns) },
        )
    } else {
        actions[ns][name].may_give(input, arguments, outcome)
    }
}

/// The namespace in which `eval` looks every action up.
pub open spec fn root_namespace() -> Seq<char> {
    "root"@
}

/// Whether running the requests of `path` in order, each on the value that
/// the one before it gave, starting from `value`, may give `outcome`: the
/// first error, or the value behind the last request.
pub open spec fn runs<T, A: CallableAction<T>>(
    actions: Actions<A>,
    path: Seq<RequestModel>,
    value: T,
    outcome: Result<T, ErrorModel>,
) -> bool
    decreases path.len(),
{
    if path.len() == 0 {
        outcome == Ok::<T, ErrorModel>(value)
    } else {
        exists|step: Result<T, ErrorModel>|
            #![trigger dispatches(actions, root_namespace(), path[0].name, value, path[0].parameters, step)]
            dispatches(actions, root_namespace(), path[0].name, value, path[0].parameters, step)
                && continues(actions, path, step, outcome)
    }
}

/// Whether, the first request of `path` having given `step`, running the
/// rest may give `outcome`.
pub open spec fn continues<T, A: CallableAction<T>>(
    actions: Actions<A>,
    path: Seq<RequestModel>,
    step: Result<T, ErrorModel>,
    outcome: Result<T, ErrorModel>,
) -> bool
    decreases path.len(), 0nat,
    when path.len() > 0
{
    match step {
        Ok(next) => runs(actions, path.drop_first(), next, outcome),
        Err(e) => outcome == Err::<T, ErrorModel>(e),
    }
}

/// Whether evaluating the query `text` on `input` may give `outcome`: the
/// error of parsing, or what running the parsed path may give.
pub open spec fn evaluates<T, A: CallableAction<T>>(
    actions: Actions<A>,
    text: Seq<char>,
    input: T,
    outcome: Result<T, ErrorModel>,
) -> bool {
    match parsed_path(text) {
        Ok(path) => runs(actions, path, input, outcome),
        Err(e) => outcome == Err::<T, ErrorModel>(e),
    }
}

/// A registry of actions: a namespace, then a name, leads to an action.
#[verifier::reject_recursive_types(T)]
#[verifier::reject_recursive_types(A)]
pub struct HashMapActionRegistry<T, A: CallableAction<T> = Box<dyn CallableAction<T>>> {
    /// Where the table of each namespace stands in `tables`.
    places: StringHashMap<usize>,
    tables: Vec<StringHashMap<A>>,
    marker: PhantomData<T>,
}

impl<T, A: CallableAction<T>> HashMapActionRegistry<T, A> {
    #[verifier::type_invariant]
    spec fn sound(self) -> bool {
        &&& forall|ns: Seq<char>| #[trigger]
            self.places@.contains_key(ns) ==> self.places@[ns] < self.tables@.len()
        &&& forall|a: Seq<char>, b: Seq<char>|
            #![trigger self.places@[a], self.places@[b]]
            self.places@.contains_key(a) && self.places@.contains_key(b) && self.places@[a]
                == self.places@[b] ==> a == b
        &&& forall|i: int, name: Seq<char>|
            #![trigger self.tables@[i]@[name]]
            0 <= i < self.tables@.len() && self.tables@[i]@.contains_key(name)
                ==> self.tables@[i]@[name].usable()
    }

    /// The actions that the registry holds.
    pub closed spec fn actions(&self) -> Actions<A> {
        Map::new(
            |ns: Seq<char>| self.places@.contains_key(ns),
            |ns: Seq<char>| self.tables@[self.places@[ns] as int]@,
        )
    }

    /// The actions of namespace `ns`: none where the registry does not know it.
    pub open spec fn namespace(&self, ns: Seq<char>) -> Map<Seq<char>, A> {
        if self.actions().contains_key(ns) {
            self.actions()[ns]
        } else {
            Map::empty()
        }
    }

    /// A registry without a namespace.
    pub fn new() -> (r: Self)
        ensures
            r.actions() == Map::<Seq<char>, Map<Seq<char>, A>>::empty(),
    {
        let r = HashMapActionRegistry {
            places: StringHashMap::new(),
            tables: Vec::new(),
            marker: PhantomData,
        };
        assert(r.actions() =~= Map::empty());
        r
    }

    /// Registers `action` under `name` in namespace `ns`. The namespace
    /// comes into being with its first action; an action that stood under
    /// the same name is replaced.
    pub fn register_callable_action(&mut self, ns: &str, name: &str, action: A)
        requires
            action.usable(),
        ensures
            final(self).actions() == old(self).actions().insert(
                ns@,
                old(self).namespace(ns@).insert(name@, action),
            ),
    {
        proof {
            use_type_invariant(&*self);
        }
        let ghost old_places = self.places@;
        let ghost old_tables = self.tables@;
        let mut taken = HashMapActionRegistry::new();
        std::mem::swap(self, &mut taken);
        let HashMapActionRegistry { places, tables, marker } = taken;
        let mut places = places;
        let mut tables = tables;
        assert(places@ == old_places && tables@ == old_tables);
        let found = match places.get(ns) {
            Some(i) => Some(*i),
            None => None,
        };
        match found {
            Some(i) => {
                tables[i].insert(String::from_str(name), action);
                assert forall|j: int, key: Seq<char>|
                    #![trigger tables@[j]@[key]]
                    0 <= j < tables@.len() && tables@[j]@.contains_key(key)
                    implies tables@[j]@[key].usable() by {
                    if j == i {
                        if key != name@ {
                            assert(old_tables[j]@[key].usable());
                        }
                    } else {
                        assert(tables@[j] == old_tables[j]);
                        assert(old_tables[j]@[key].usable());
                    }
                }
            },
            None => {
                let mut table: StringHashMap<A> = StringHashMap::new();
                table.insert(String::from_str(name), action);
                let i = tables.len();
                tables.push(table);
                places.insert(String::from_str(ns), i);
                assert forall|j: int, key: Seq<char>|
                    #![trigger tables@[j]@[key]]
                    0 <= j < tables@.len() && tables@[j]@.contains_key(key)
                    implies tables@[j]@[key].usable() by {
                    if j != i {
                        assert(tables@[j] == old_tables[j]);
                        assert(old_tables[j]@[key].usable());
                    }
                }
            },
        }
        *self = HashMapActionRegistry { places, tables, marker };
        assert(self.actions() =~= old(self).actions().insert(
            ns@,
            old(self).namespace(ns@).insert(name@, action),
        ));
    }

    /// Calls the action `name` of namespace `ns` on `input`.
    pub fn call(&self, ns: &str, name: &str, input: T, arguments: &Vec<ActionParameter>) -> (r:
        Result<T, Error>)
        ensures
            dispatches(
                self.actions(),
                ns@,
                name@,
                input,
                parameter_models(arguments@),
                outcome_model(r),
            ),
    {
        proof {
            use_type_invariant(self);
        }
        match self.places.get(ns) {
            None => {
                let mut message = String::from_str("Action ");
                push_text(&mut message, name);
                push_text(&mut message, " not registered in namespace ");
                push_text(&mut message, ns);
                push_text(&mut message, "; no such namespace");
                Err(Error::ActionNotRegistered { message })
            },
            Some(i) => match self.tables[*i].get(name) {
                None => {
                    let mut message = String::from_str("Action ");
                    push_text(&mut message, name);
                    push_text(&mut message, " not registered in namespace ");
                    push_text(&mut message, ns);
                    Err(Error::ActionNotRegistered { message })
                },
                Some(action) => action.call_action(input, arguments),
            },
        }
    }
}

impl<T, A: CallableAction<T>> Environment<T> for HashMapActionRegistry<T, A> {
    /// Parses `query` as a path of actions and runs them in order in the
    /// namespace `root`, each on the value that the one before it gave. The
    /// first error ends the evaluation and is returned as it is.
    fn eval(&mut self, input: T, query: &str) -> (r: Result<T, Error>)
        ensures
            evaluates(old(self).actions(), query@, input, outcome_model(r)),
            final(self).actions() == old(self).actions(),
    {
        let path = match parse_query_simple(query) {
            Ok(path) => path,
            Err(e) => {
                return Err(e);
            },
        };
        let ghost actions = self.actions();
        let ghost requests = request_models(path@);
        let mut value = input;
        let mut i: usize = 0;
        assert(requests.skip(0) =~= requests);
        while i < path.len()
            invariant
                i <= path.len(),
                actions == self.actions(),
                actions == old(self).actions(),
                requests == request_models(path@),
                parsed_path(query@) == Ok::<Seq<RequestModel>, ErrorModel>(requests),
                forall|outcome: Result<T, ErrorModel>| #[trigger]
                    runs(actions, requests.skip(i as int), value, outcome) ==> runs(
                        actions,
                        requests,
                        input,
                        outcome,
                    ),
            decreases path.len() - i,
        {
            let request = &path[i];
            let ghost before = value;
            let step = self.call("root", request.name.as_str(), value, &request.parameters);
            proof {
                let rest = requests.skip(i as int);
                assert(rest[0] == request@);
                assert(rest.drop_first() =~= requests.skip(i + 1));
                assert(dispatches(
                    actions,
                    root_namespace(),
                    rest[0].name,
                    before,
                    rest[0].parameters,
                    outcome_model(step),
                ));
                assert forall|outcome: Result<T, ErrorModel>|
                    continues(actions, rest, outcome_model(step), outcome) implies runs(
                    actions,
                    requests,
                    input,
                    outcome,
                ) by {
                    assert(runs(actions, rest, before, outcome));
                }
            }
            match step {
                Ok(next) => {
                    value = next;
                    assert forall|outcome: Result<T, ErrorModel>| #[trigger]
                        runs(actions, requests.skip(i + 1), value, outcome) implies runs(
                        actions,
                        requests,
                        input,
                        outcome,
                    ) by {
                        assert(continues(
                            actions,
                            requests.skip(i as int),
                            outcome_model(step),
                            outcome,
                        ));
                    }
                },
                Err(e) => {
                    assert(continues(
                        actions,
                        requests.skip(i as int),
                        outcome_model(step),
                        Err::<T, ErrorModel>(e@),
                    ));
                    return Err(e);
                },
            }
            i += 1;
        }
        assert(requests.skip(i as int) =~= Seq::empty());
        assert(runs(actions, requests.skip(i as int), value, Ok::<T, ErrorModel>(value)));
        Ok(value)
    }
}

/// An unknown namespace and an unknown name in a known namespace are told
/// apart: for one name and one namespace, the two messages differ.
pub proof fn unknown_namespace_and_unknown_name_differ(name: Seq<char>, ns: Seq<char>)
    ensures
        no_namespace_message(name, ns) != no_action_message(name, ns),
{
    reveal_strlit("; no such namespace");
    assert(no_namespace_message(name, ns).len() == no_action_message(name, ns).len() + 19);
}

/// The request `path[k]` names an action that the namespace `root` of
/// `actions` does not hold, or there is no such namespace.
pub open spec fn unregistered_at<T, A: CallableAction<T>>(
    actions: Actions<A>,
    path: Seq<RequestModel>,
    k: int,
) -> bool {
    &&& 0 <= k < path.len()
    &&& !(actions.contains_key(root_namespace()) && actions[root_namespace()].contains_key(
        path[k].name,
    ))
}

/// The error that reports `name` as not registered in the namespace `root`.
pub open spec fn not_registered<T, A: CallableAction<T>>(
    actions: Actions<A>,
    name: Seq<char>,
) -> ErrorModel {
    if actions.contains_key(root_namespace()) {
        ErrorModel::ActionNotRegistered { message: no_action_message(name, root_namespace()) }
    } else {
        ErrorModel::ActionNotRegistered { message: no_namespace_message(name, root_namespace()) }
    }
}

/// A path that names an action which is not registered never gives a value:
/// whatever the actions before it do, the run ends in an error.
pub proof fn unregistered_action_gives_no_value<T, A: CallableAction<T>>(
    actions: Actions<A>,
    path: Seq<RequestModel>,
    k: int,
    value: T,
    outcome: Result<T, ErrorModel>,
)
    requires
        unregistered_at(actions, path, k),
        runs(actions, path, value, outcome),
    ensures
        outcome is Err,
    decreases path.len(),
{
    let step = choose|step: Result<T, ErrorModel>|
        #![trigger dispatches(actions, root_namespace(), path[0].name, value, path[0].parameters, step)]
        dispatches(actions, root_namespace(), path[0].name, value, path[0].parameters, step)
            && continues(actions, path, step, outcome);
    if k > 0 {
        match step {
            Ok(next) => {
                assert(path.drop_first()[k - 1] == path[k]);
                unregistered_action_gives_no_value(actions, path.drop_first(), k - 1, next, outcome);
            },
            Err(_) => {},
        }
    }
}

/// Every action in front of `path[k]` is registered and gives a value
/// whatever it is called on.
pub open spec fn succeed_before<T, A: CallableAction<T>>(
    actions: Actions<A>,
    path: Seq<RequestModel>,
    k: int,
) -> bool {
    forall|j: int, input: T, outcome: Result<T, ErrorModel>|
        #![trigger dispatches(actions, root_namespace(), path[j].name, input, path[j].parameters, outcome)]
        0 <= j < k && dispatches(
            actions,
            root_namespace(),
            path[j].name,
            input,
            path[j].parameters,
            outcome,
        ) ==> outcome is Ok
}

/// Evaluation stops at the first error: where the actions in front of an
/// unregistered one all give values, the run gives the error that reports
/// the unregistered action, and none of the values in between.
pub proof fn first_error_ends_the_run<T, A: CallableAction<T>>(
    actions: Actions<A>,
    path: Seq<RequestModel>,
    k: int,
    value: T,
    outcome: Result<T, ErrorModel>,
)
    requires
        unregistered_at(actions, path, k),
        succeed_before(actions, path, k),
        runs(actions, path, value, outcome),
    ensures
        outcome == Err::<T, ErrorModel>(not_registered(actions, path[k].name)),
    decreases path.len(),
{
    let step = choose|step: Result<T, ErrorModel>|
        #![trigger dispatches(actions, root_namespace(), path[0].name, value, path[0].parameters, step)]
        dispatches(actions, root_namespace(), path[0].name, value, path[0].parameters, step)
            && continues(actions, path, step, outcome);
    if k > 0 {
        match step {
            Ok(next) => {
                let rest = path.drop_first();
                assert(rest[k - 1] == path[k]);
                assert forall|j: int, input: T, out: Result<T, ErrorModel>|
                    #![trigger dispatches(actions, root_namespace(), rest[j].name, input, rest[j].parameters, out)]
                    0 <= j < k - 1 && dispatches(
                        actions,
                        root_namespace(),
                        rest[j].name,
                        input,
                        rest[j].parameters,
                        out,
                    ) implies out is Ok by {
                    assert(rest[j] == path[j + 1]);
                    assert(dispatches(
                        actions,
                        root_namespace(),
                        path[j + 1].name,
                        input,
                        path[j + 1].parameters,
                        out,
                    ));
                }
                first_error_ends_the_run(actions, rest, k - 1, next, outcome);
            },
            Err(_) => {},
        }
    }
}

} // verus!
