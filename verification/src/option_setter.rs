//! Applying one named option, given as text, to a plugin's settings.
use vstd::prelude::*;

verus! {

/// `<str as PartialEq>::eq`: two string slices are equal exactly when they hold the same
/// characters.
#[verifier::external_body]
fn str_eq(a: &str, b: &str) -> (r: bool)
    ensures
        r == (a@ == b@),
{
    a == b
}

/// The message for an option whose value did not parse.
pub open spec fn parse_error_message(name: Seq<char>, err: Seq<char>) -> Seq<char> {
    "error parsing option "@ + name + ": "@ + err
}

/// The message for an option that no setter took.
pub open spec fn not_found_message(name: Seq<char>) -> Seq<char> {
    "field not found: "@ + name
}

/// An option `name = value` on its way through the setters of `target`: unmatched until a
/// setter with its name takes it, then the outcome of that setter.
pub enum OptionSetter<'a, T> {
    Unmatched { target: T, name: &'a str, value: &'a str },
    Matched(Result<T, String>),
}

impl<'a, T> OptionSetter<'a, T> {
    /// The option `name = value`, not yet taken, for a copy of `target`.
    pub fn new(target: &T, name: &'a str, value: &'a str) -> (r: OptionSetter<'a, T>)
        where
            T: Clone,
        ensures
            r matches OptionSetter::Unmatched { target: t, name: n, value: v } && cloned(*target, t)
                && n == name && v == value,
    {
        OptionSetter::Unmatched { target: target.clone(), name, value }
    }

    /// The setter for `option_name`: if the option is not taken yet and has this name, its value
    /// is parsed with `parse` and, when that succeeds, given to `setter_func` with the target;
    /// a parse error becomes the message "error parsing option NAME: ERROR". Anything else passes
    /// through unchanged.
    pub fn option<V, P: FnOnce(&str) -> Result<V, String>, SF: FnOnce(T, V) -> T>(
        self,
        option_name: &str,
        parse: P,
        setter_func: SF,
    ) -> (r: Self)
        requires
            self matches OptionSetter::Unmatched { name, value, .. } ==> name@ == option_name@ ==> (
            call_requires(parse, (value,)) && forall|t: T, v: V| call_requires(setter_func, (t, v))),
        ensures
            match self {
                OptionSetter::Unmatched { target, name, value } => if name@ == option_name@ {
                    exists|parsed: Result<V, String>|
                        call_ensures(parse, (value,), parsed) && match parsed {
                            Ok(v) => r matches OptionSetter::Matched(Ok(t)) && call_ensures(
                                setter_func,
                                (target, v),
                                t,
                            ),
                            Err(e) => r matches OptionSetter::Matched(Err(m)) && m@ == parse_error_message(
                                name@,
                                e@,
                            ),
                        }
                } else {
                    r == self
                },
                OptionSetter::Matched(_) => r == self,
            },
    {
        match self {
            OptionSetter::Unmatched { target, name, value } => {
                if str_eq(name, option_name) {
                    let parsed = parse(value);
                    match parsed {
                        Ok(v) => OptionSetter::Matched(Ok(setter_func(target, v))),
                        Err(e) => {
                            let msg = error_message(name, &e);
                            OptionSetter::Matched(Err(msg))
                        },
                    }
                } else {
                    OptionSetter::Unmatched { target, name, value }
                }
            },
            OptionSetter::Matched(res) => OptionSetter::Matched(res),
        }
    }

    /// The setter for `option_name` whose setting can fail: as [`Self::option`], except that
    /// `setter_func` returns the new target or an error message, which becomes the outcome.
    pub fn try_option<V, P: FnOnce(&str) -> Result<V, String>, SF: FnOnce(T, V) -> Result<T, String>>(
        self,
        option_name: &str,
        parse: P,
        setter_func: SF,
    ) -> (r: Self)
        requires
            self matches OptionSetter::Unmatched { name, value, .. } ==> name@ == option_name@ ==> (
            call_requires(parse, (value,)) && forall|t: T, v: V| call_requires(setter_func, (t, v))),
        ensures
            match self {
                OptionSetter::Unmatched { target, name, value } => if name@ == option_name@ {
                    exists|parsed: Result<V, String>|
                        call_ensures(parse, (value,), parsed) && match parsed {
                            Ok(v) => r matches OptionSetter::Matched(res) && call_ensures(
                                setter_func,
                                (target, v),
                                res,
                            ),
                            Err(e) => r matches OptionSetter::Matched(Err(m)) && m@ == parse_error_message(
                                name@,
                                e@,
                            ),
                        }
                } else {
                    r == self
                },
                OptionSetter::Matched(_) => r == self,
            },
    {
        match self {
            OptionSetter::Unmatched { target, name, value } => {
                if str_eq(name, option_name) {
                    let parsed = parse(value);
                    match parsed {
                        Ok(v) => OptionSetter::Matched(setter_func(target, v)),
                        Err(e) => {
                            let msg = error_message(name, &e);
                            OptionSetter::Matched(Err(msg))
                        },
                    }
                } else {
                    OptionSetter::Unmatched { target, name, value }
                }
            },
            OptionSetter::Matched(res) => OptionSetter::Matched(res),
        }
    }

    /// Changes a target that a setter took successfully with `func`; anything else passes through
    /// unchanged.
    pub fn mutate<F: FnOnce(T) -> T>(self, func: F) -> (r: Self)
        requires
            self matches OptionSetter::Matched(Ok(t)) ==> call_requires(func, (t,)),
        ensures
            match self {
                OptionSetter::Matched(Ok(t)) => r matches OptionSetter::Matched(Ok(t2)) && call_ensures(
                    func,
                    (t,),
                    t2,
                ),
                _ => r == self,
            },
    {
        match self {
            OptionSetter::Matched(Ok(t)) => OptionSetter::Matched(Ok(func(t))),
            other => other,
        }
    }

    /// The outcome: the target a setter produced, the error a setter gave, or "field not found:
    /// NAME" when no setter took the option.
    pub fn finish(self) -> (r: Result<T, String>)
        ensures
            match self {
                OptionSetter::Unmatched { name, .. } => r matches Err(m) && m@ == not_found_message(name@),
                OptionSetter::Matched(res) => r == res,
            },
    {
        match self {
            OptionSetter::Unmatched { name, .. } => {
                let mut msg = "field not found: ".to_owned();
                msg.append(name);
                Err(msg)
            },
            OptionSetter::Matched(res) => res,
        }
    }
}

/// "error parsing option NAME: ERROR".
fn error_message(name: &str, err: &String) -> (r: String)
    ensures
        r@ == parse_error_message(name@, err@),
{
    let mut msg = "error parsing option ".to_owned();
    msg.append(name);
    msg.append(": ");
    msg.append(err.as_str());
    msg
}

} // verus!
