use vstd::prelude::*;

verus! {

/// What a reference to a name resolves to.
#[derive(Clone, Copy, Debug, PartialEq, Eq, Structural)]
pub enum Resolution {
    /// A declaration, a parameter or any other binding in scope.
    Binding,
    /// Nothing in the program: the name is a global.
    Unbound,
}

/// The answers of scope analysis, one for each reference of a program, in
/// the order of the reference keys.
#[derive(Debug)]
pub struct SemanticModel {
    resolutions: Vec<Resolution>,
}

/// What the model says of `reference`. A reference that the model has no
/// record of counts as bound.
pub open spec fn resolved(model: Seq<Resolution>, reference: usize) -> Resolution {
    if reference < model.len() {
        model[reference as int]
    } else {
        Resolution::Binding
    }
}

impl View for SemanticModel {
    type V = Seq<Resolution>;

    closed spec fn view(&self) -> Seq<Resolution> {
        self.resolutions@
    }
}

impl SemanticModel {
    /// The model that resolves reference `i` to `resolutions[i]`.
    pub fn new(resolutions: Vec<Resolution>) -> (model: SemanticModel)
        ensures
            model@ == resolutions@,
    {
        SemanticModel { resolutions }
    }

    /// What `reference` resolves to.
    pub fn resolve_identifier(&self, reference: usize) -> (resolution: Resolution)
        ensures
            resolution == resolved(self@, reference),
    {
        if reference < self.resolutions.len() {
            self.resolutions[reference]
        } else {
            Resolution::Binding
        }
    }

    /// Whether `reference` names a global.
    pub fn is_global_reference(&self, reference: usize) -> (global: bool)
        ensures
            global == (resolved(self@, reference) == Resolution::Unbound),
    {
        match self.resolve_identifier(reference) {
            Resolution::Unbound => true,
            Resolution::Binding => false,
        }
    }
}

} // verus!
