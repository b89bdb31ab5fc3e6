//! What a host needs to hand its own values to an instance: the values of
//! the host are turned into values of the library by the type of the
//! property they are for.

use vstd::prelude::*;
use std::rc::Rc;
use vstd::pervasive::unreached;
use crate::dynamic_component::{
    fits, freshly_made, lemma_written_shape, public_at, written, BoxView, ComponentBox,
    ComponentDescription,
};
use crate::eval::{Value, ValueModel};
use crate::names::views;
use crate::typeregister::Type;

verus! {

/// A value as a host has it.
#[derive(Debug)]
pub enum HostValue {
    Undefined,
    Number(i64),
    Text(String),
    Boolean(bool),
}

/// The content of a [`HostValue`].
pub enum HostValueView {
    Undefined,
    Number(i64),
    Text(Seq<char>),
    Boolean(bool),
}

impl View for HostValue {
    type V = HostValueView;

    open spec fn view(&self) -> HostValueView {
        match *self {
            HostValue::Undefined => HostValueView::Undefined,
            HostValue::Number(n) => HostValueView::Number(n),
            HostValue::Text(s) => HostValueView::Text(s@),
            HostValue::Boolean(b) => HostValueView::Boolean(b),
        }
    }
}

/// Why a value of the host is no value for a property.
#[derive(Clone, Copy, Debug, PartialEq, Eq, Structural)]
pub enum ConversionError {
    /// Nothing can be written to what has this type: it is no property.
    NotAProperty,
    /// The host has no values of this type.
    Unsupported,
    /// The property takes a number, and the value is none.
    NotANumber,
    /// The property takes a text, and the value is none.
    NotAText,
    /// The property takes a truth value, and the value is none.
    NotABoolean,
}

/// The value of the library that a value of the host is, for a property of
/// the given type.
pub open spec fn converted(val: HostValueView, ty: Type) -> Result<ValueModel, ConversionError> {
    match ty {
        Type::Invalid | Type::Component(_) | Type::Builtin(_) | Type::Signal => Err(
            ConversionError::NotAProperty,
        ),
        Type::Float32 | Type::Int32 => match val {
            HostValueView::Number(n) => Ok(ValueModel::Number(n as int)),
            _ => Err(ConversionError::NotANumber),
        },
        Type::String => match val {
            HostValueView::Text(s) => Ok(ValueModel::String(s)),
            _ => Err(ConversionError::NotAText),
        },
        Type::Color | Type::Image => Err(ConversionError::Unsupported),
        Type::Bool => match val {
            HostValueView::Boolean(b) => Ok(ValueModel::Bool(b)),
            _ => Err(ConversionError::NotABoolean),
        },
    }
}

/// Turns a value of the host into a value for a property of the given
/// type.
pub fn to_eval_value(val: &HostValue, ty: Type) -> (r: Result<Value, ConversionError>)
    ensures
        match converted(val@, ty) {
            Ok(v) => r is Ok && r->Ok_0@ == v && fits(v, ty),
            Err(e) => r == Err::<Value, ConversionError>(e),
        },
{
    match ty {
        Type::Invalid => Err(ConversionError::NotAProperty),
        Type::Component(_) => Err(ConversionError::NotAProperty),
        Type::Builtin(_) => Err(ConversionError::NotAProperty),
        Type::Signal => Err(ConversionError::NotAProperty),
        Type::Float32 => match val {
            HostValue::Number(n) => Ok(Value::Number(*n)),
            _ => Err(ConversionError::NotANumber),
        },
        Type::Int32 => match val {
            HostValue::Number(n) => Ok(Value::Number(*n)),
            _ => Err(ConversionError::NotANumber),
        },
        Type::String => match val {
            HostValue::Text(s) => Ok(Value::String(s.clone())),
            _ => Err(ConversionError::NotAText),
        },
        Type::Color => Err(ConversionError::Unsupported),
        Type::Image => Err(ConversionError::Unsupported),
        Type::Bool => match val {
            HostValue::Boolean(b) => Ok(Value::Bool(*b)),
            _ => Err(ConversionError::NotABoolean),
        },
    }
}

/// A property and the value that the host gives it.
#[derive(Debug)]
pub struct Argument {
    pub name: String,
    pub value: HostValue,
}

/// The content of an [`Argument`].
pub struct ArgumentView {
    pub name: Seq<char>,
    pub value: HostValueView,
}

impl View for Argument {
    type V = ArgumentView;

    open spec fn view(&self) -> ArgumentView {
        ArgumentView { name: self.name@, value: self.value@ }
    }
}

/// Why an instance could not be made with the given arguments: which
/// argument is at fault, by position, and what is wrong with it.
#[derive(Clone, Copy, Debug, PartialEq, Eq, Structural)]
pub enum CreateError {
    /// The component declares nothing of that name.
    PropertyNotFound(usize),
    /// The value is none for the property.
    Conversion(usize, ConversionError),
}

/// The first declaration of the name, property or signal.
pub open spec fn declared_public(description: ComponentDescription, name: Seq<char>) -> Option<int> {
    match (public_at(description.public@, name, false), public_at(description.public@, name, true)) {
        (Some(p), Some(s)) => if p < s {
            Some(p)
        } else {
            Some(s)
        },
        (Some(p), None) => Some(p),
        (None, Some(s)) => Some(s),
        (None, None) => None,
    }
}

/// The state of an instance after one more argument was assigned, or why
/// the argument cannot be assigned. A value that was converted for a
/// property is of the type of the property, and what takes a value is no
/// signal: the write itself cannot fail.
pub open spec fn with_argument(
    description: ComponentDescription,
    view: BoxView,
    argument: ArgumentView,
    position: usize,
) -> Result<BoxView, CreateError> {
    match declared_public(description, argument.name) {
        None => Err(CreateError::PropertyNotFound(position)),
        Some(k) => match converted(argument.value, description.public@[k].property_type) {
            Err(e) => Err(CreateError::Conversion(position, e)),
            Ok(v) => Ok(
                written(
                    view,
                    description.public@[k].slot,
                    v,
                    description.cells@[description.public@[k].slot as int].animation,
                ),
            ),
        },
    }
}

/// The state of an instance after the first `n` arguments were assigned in
/// order, or what is wrong with the first argument that cannot be
/// assigned.
pub open spec fn with_arguments(
    description: ComponentDescription,
    view: BoxView,
    arguments: Seq<ArgumentView>,
    n: int,
) -> Result<BoxView, CreateError>
    decreases n,
{
    if n <= 0 {
        Ok(view)
    } else {
        match with_arguments(description, view, arguments, n - 1) {
            Err(e) => Err(e),
            Ok(before) => with_argument(description, before, arguments[n - 1], (n - 1) as usize),
        }
    }
}

/// The first declaration of a name, property or signal.
fn find_declared(description: &ComponentDescription, name: &str) -> (found: Option<usize>)
    ensures
        match found {
            Some(k) => declared_public(*description, name@) == Some(k as int) && k
                < description.public@.len(),
            None => declared_public(*description, name@).is_none(),
        },
{
    let property = crate::dynamic_component::find_public(&description.public, name, false);
    let signal = crate::dynamic_component::find_public(&description.public, name, true);
    match (property, signal) {
        (Some(p), Some(s)) => if p < s {
            Some(p)
        } else {
            Some(s)
        },
        (Some(p), None) => Some(p),
        (None, Some(s)) => Some(s),
        (None, None) => None,
    }
}

/// Makes an instance and assigns the arguments to its properties, in
/// order. Fails at the first argument that names nothing or whose value is
/// none for what it names.
pub fn create(description: &Rc<ComponentDescription>, arguments: &Vec<Argument>) -> (result: Result<
    ComponentBox,
    CreateError,
>)
    requires
        description.wf(),
    ensures
        exists|fresh: ComponentBox|
            freshly_made(**description, fresh, ValueModel::Number(0), ValueModel::Void) && match with_arguments(
                **description,
                fresh@,
                views(arguments@),
                arguments@.len() as int,
            ) {
                Ok(view) => result is Ok && result->Ok_0@ == view && result->Ok_0.wf(),
                Err(e) => result == Err::<ComponentBox, CreateError>(e),
            },
{
    let whole: &ComponentDescription = description;
    let mut instance = description.create();
    let ghost fresh = instance;
    let mut n: usize = 0;
    while n < arguments.len()
        invariant
            description.wf(),
            *whole == **description,
            instance.wf(),
            description.accepts(instance@),
            n <= arguments.len(),
            freshly_made(**description, fresh, ValueModel::Number(0), ValueModel::Void),
            with_arguments(**description, fresh@, views(arguments@), n as int) == Ok::<
                BoxView,
                CreateError,
            >(instance@),
        decreases arguments.len() - n,
    {
        let argument = &arguments[n];
        assert(views(arguments@)[n as int] == argument@);
        let k = match find_declared(description, argument.name.as_str()) {
            Some(k) => k,
            None => {
                proof {
                    lemma_error_stays(
                        *whole,
                        fresh@,
                        views(arguments@),
                        n + 1,
                        arguments@.len() as int,
                    );
                }
                return Err(CreateError::PropertyNotFound(n));
            },
        };
        let value = match to_eval_value(&argument.value, description.public[k].property_type) {
            Ok(value) => value,
            Err(e) => {
                proof {
                    lemma_error_stays(
                        *whole,
                        fresh@,
                        views(arguments@),
                        n + 1,
                        arguments@.len() as int,
                    );
                }
                return Err(CreateError::Conversion(n, e));
            },
        };
        let ghost before = instance@;
        let ghost written_value = value@;
        proof {
            crate::dynamic_component::lemma_public_at(description.public@, argument.name@, false);
            crate::dynamic_component::lemma_public_at(description.public@, argument.name@, true);
            assert(public_at(description.public@, argument.name@, false) == Some(k as int));
            assert(fits(written_value, description.public@[k as int].property_type));
        }
        match description.set_property_checked(&mut instance, argument.name.as_str(), value, true) {
            Ok(()) => {
                proof {
                    lemma_written_shape(
                        before,
                        description.public@[k as int].slot,
                        written_value,
                        description.cells@[description.public@[k as int].slot as int].animation,
                    );
                }
            },
            Err(_) => unreached(),
        }
        n += 1;
    }
    Ok(instance)
}

/// Once an argument cannot be assigned, the later ones do not matter.
proof fn lemma_error_stays(
    description: ComponentDescription,
    view: BoxView,
    arguments: Seq<ArgumentView>,
    n: int,
    more: int,
)
    requires
        0 <= n <= more,
        with_arguments(description, view, arguments, n) is Err,
    ensures
        with_arguments(description, view, arguments, more) == with_arguments(
            description,
            view,
            arguments,
            n,
        ),
    decreases more,
{
    if n < more {
        lemma_error_stays(description, view, arguments, n, more - 1);
    }
}

} // verus!
