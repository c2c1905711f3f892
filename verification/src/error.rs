use vstd::prelude::*;

verus! {

/// Every way a run can fail.
#[derive(Debug, PartialEq)]
pub enum StackError {
    /// A dependency name matched no module in any scope that encloses the
    /// module that declared it.
    DependencyNotFound { dependency: String, module_id: String },
    /// The requested target is not a module of the graph.
    TargetNotFound(String),
    /// The target's transitive dependencies contain a cycle.
    CycleDetected,
    /// Layering made no progress although modules remained.
    LayeringError,
    /// A reference that must resolve did not: it named a dependency
    /// without published outputs, or its path led nowhere in the outputs
    /// of the dependency or the variables of the scope that it named, or
    /// it named neither a dependency nor an enclosing scope.
    ReferenceNotFound(String),
    /// A step of a path walk found no value: a key that is absent, an
    /// index out of bounds, or a value of the wrong kind. The walk itself
    /// answers such a miss with nothing, and resolution reports it as
    /// `ReferenceNotFound`; no function of this crate returns this kind.
    ReferencePathError(String),
    /// A reference path with an unmatched bracket or an index that is not a
    /// number.
    ReferenceSyntaxError(String),
    /// The execution capability reported a failure.
    ExecutionError(String),
}

/// The mathematical content of a `StackError`.
pub enum ErrorModel {
    DependencyNotFound { dependency: Seq<char>, module_id: Seq<char> },
    TargetNotFound(Seq<char>),
    CycleDetected,
    LayeringError,
    ReferenceNotFound(Seq<char>),
    ReferencePathError(Seq<char>),
    ReferenceSyntaxError(Seq<char>),
    ExecutionError(Seq<char>),
}

impl DeepView for StackError {
    type V = ErrorModel;

    open spec fn deep_view(&self) -> ErrorModel {
        match self {
            StackError::DependencyNotFound { dependency, module_id } => {
                ErrorModel::DependencyNotFound { dependency: dependency@, module_id: module_id@ }
            },
            StackError::TargetNotFound(id) => ErrorModel::TargetNotFound(id@),
            StackError::CycleDetected => ErrorModel::CycleDetected,
            StackError::LayeringError => ErrorModel::LayeringError,
            StackError::ReferenceNotFound(p) => ErrorModel::ReferenceNotFound(p@),
            StackError::ReferencePathError(p) => ErrorModel::ReferencePathError(p@),
            StackError::ReferenceSyntaxError(p) => ErrorModel::ReferenceSyntaxError(p@),
            StackError::ExecutionError(m) => ErrorModel::ExecutionError(m@),
        }
    }
}

impl Clone for StackError {
    fn clone(&self) -> (res: StackError)
        ensures
            res.deep_view() == self.deep_view(),
    {
        match self {
            StackError::DependencyNotFound { dependency, module_id } => {
                StackError::DependencyNotFound {
                    dependency: dependency.clone(),
                    module_id: module_id.clone(),
                }
            },
            StackError::TargetNotFound(id) => StackError::TargetNotFound(id.clone()),
            StackError::CycleDetected => StackError::CycleDetected,
            StackError::LayeringError => StackError::LayeringError,
            StackError::ReferenceNotFound(p) => StackError::ReferenceNotFound(p.clone()),
            StackError::ReferencePathError(p) => StackError::ReferencePathError(p.clone()),
            StackError::ReferenceSyntaxError(p) => StackError::ReferenceSyntaxError(p.clone()),
            StackError::ExecutionError(m) => StackError::ExecutionError(m.clone()),
        }
    }
}

} // verus!
