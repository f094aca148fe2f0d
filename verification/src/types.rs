//! The data model: a single closed tree type for every value the concrete
//! syntax can denote, together with its ghost counterpart used in contracts.

use vstd::prelude::*;

verus! {

broadcast use vstd::std_specs::vec::axiom_vec_decreases_to_view, vstd::seq::axiom_seq_index_decreases;

/// Ghost mirror of [`MalType`]: the mathematical value of a form.
///
/// Integers are unbounded here; a value obtained as the view of a `MalType`
/// always carries an `i64`-ranged integer. Text payloads are sequences of
/// Unicode scalar values, and composites are sequences of child forms.
pub enum Form {
    Nil,
    Bool(bool),
    Int(int),
    Str(Seq<char>),
    Symbol(Seq<char>),
    Keyword(Seq<char>),
    List(Seq<Form>),
    Vector(Seq<Form>),
}

/// One value of the language's concrete syntax.
///
/// Invariants kept by the reader (not enforced by the type itself):
/// a `Str` payload is already escape-decoded, a `Keyword` payload does not
/// include its leading `:`, and a `Symbol` payload is never empty.
#[derive(Debug, PartialEq, Eq)]
pub enum MalType {
    Nil,
    Bool(bool),
    Int(i64),
    Str(String),
    Symbol(String),
    Keyword(String),
    List(Vec<MalType>),
    Vector(Vec<MalType>),
}

impl View for MalType {
    type V = Form;

    /// Structural (deep) view: the `Form` a tree stands for.
    open spec fn view(&self) -> Form
        decreases self,
    {
        match self {
            MalType::Nil => Form::Nil,
            MalType::Bool(b) => Form::Bool(*b),
            MalType::Int(n) => Form::Int(*n as int),
            MalType::Str(s) => Form::Str(s@),
            MalType::Symbol(s) => Form::Symbol(s@),
            MalType::Keyword(s) => Form::Keyword(s@),
            MalType::List(xs) => Form::List(
                Seq::new(xs@.len(), |k: int| if 0 <= k < xs@.len() { xs@[k]@ } else { Form::Nil }),
            ),
            MalType::Vector(xs) => Form::Vector(
                Seq::new(xs@.len(), |k: int| if 0 <= k < xs@.len() { xs@[k]@ } else { Form::Nil }),
            ),
        }
    }
}

} // verus!
