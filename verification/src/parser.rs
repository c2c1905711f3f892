//! The infrastructure model: scopes, modules and their declared inputs.

use crate::value::{Dict, Duplicate, Value, ValueModel};
use vstd::prelude::*;

verus! {

/// A dependency of a module: the name under which it was declared and,
/// once the graph is built, the id of the module that the name stands for.
#[derive(Debug, PartialEq)]
pub struct Dependency {
    pub id: String,
    pub name: String,
}

pub struct DependencyModel {
    pub id: Seq<char>,
    pub name: Seq<char>,
}

/// What a module declares for one of its inputs.
#[derive(Debug, PartialEq)]
pub enum InputValue {
    /// A reference that must resolve.
    Ref { path: String },
    /// A reference that falls back to `default`.
    RefWithDefault { path: String, default: Value },
    /// A literal.
    Default(Value),
}

pub enum InputModel {
    Ref { path: Seq<char> },
    RefWithDefault { path: Seq<char>, default: ValueModel },
    Default(ValueModel),
}

/// A module: one instance of a source template. `scope_ids` lists the
/// enclosing scopes from the outermost to the innermost.
#[derive(Debug, PartialEq)]
pub struct ModuleNode {
    pub source: String,
    pub id: String,
    pub dependencies: Vec<Dependency>,
    pub variables: Vec<(String, Value)>,
    pub mocked_outputs: Option<Vec<(String, Value)>>,
    pub inputs: Vec<(String, InputValue)>,
    pub scope_ids: Vec<String>,
}

pub struct ModuleModel {
    pub source: Seq<char>,
    pub id: Seq<char>,
    pub dependencies: Seq<DependencyModel>,
    pub variables: Dict<ValueModel>,
    pub mocked_outputs: Option<Dict<ValueModel>>,
    pub inputs: Dict<InputModel>,
    pub scope_ids: Seq<Seq<char>>,
}

/// A scope: a named grouping with variables and nested nodes.
#[derive(Debug, PartialEq)]
pub struct ScopeNode {
    pub scope: String,
    pub id: String,
    pub variables: Vec<(String, Value)>,
    pub children: Vec<(String, InfraNode)>,
}

pub struct ScopeNodeModel {
    pub scope: Seq<char>,
    pub id: Seq<char>,
    pub variables: Dict<ValueModel>,
    pub children: Dict<InfraNodeModel>,
}

/// A node of the infrastructure tree.
#[derive(Debug, PartialEq)]
pub enum InfraNode {
    Scope(ScopeNode),
    Module(ModuleNode),
}

pub enum InfraNodeModel {
    Scope(ScopeNodeModel),
    Module(ModuleModel),
}

/// What modules of one source get where they declare nothing themselves.
#[derive(Debug, PartialEq)]
pub struct ModuleDefaults {
    pub dependencies: Vec<Dependency>,
    pub variables: Vec<(String, Value)>,
    pub mocked_outputs: Option<Vec<(String, Value)>>,
    pub inputs: Vec<(String, InputValue)>,
}

pub struct DefaultsModel {
    pub dependencies: Seq<DependencyModel>,
    pub variables: Dict<ValueModel>,
    pub mocked_outputs: Option<Dict<ValueModel>>,
    pub inputs: Dict<InputModel>,
}

/// The whole infrastructure definition.
#[derive(Debug, PartialEq)]
pub struct InfraFile {
    pub nodes: Vec<(String, InfraNode)>,
    pub source_defaults: Vec<(String, ModuleDefaults)>,
}

pub struct InfraModel {
    pub nodes: Dict<InfraNodeModel>,
    pub source_defaults: Dict<DefaultsModel>,
}

impl DeepView for Dependency {
    type V = DependencyModel;

    open spec fn deep_view(&self) -> DependencyModel {
        DependencyModel { id: self.id@, name: self.name@ }
    }
}

impl DeepView for InputValue {
    type V = InputModel;

    open spec fn deep_view(&self) -> InputModel {
        match self {
            InputValue::Ref { path } => InputModel::Ref { path: path@ },
            InputValue::RefWithDefault { path, default } => InputModel::RefWithDefault {
                path: path@,
                default: default.deep_view(),
            },
            InputValue::Default(v) => InputModel::Default(v.deep_view()),
        }
    }
}

impl DeepView for ModuleNode {
    type V = ModuleModel;

    open spec fn deep_view(&self) -> ModuleModel {
        ModuleModel {
            source: self.source@,
            id: self.id@,
            dependencies: self.dependencies.deep_view(),
            variables: self.variables.deep_view(),
            mocked_outputs: self.mocked_outputs.deep_view(),
            inputs: self.inputs.deep_view(),
            scope_ids: self.scope_ids.deep_view(),
        }
    }
}

impl DeepView for ModuleDefaults {
    type V = DefaultsModel;

    open spec fn deep_view(&self) -> DefaultsModel {
        DefaultsModel {
            dependencies: self.dependencies.deep_view(),
            variables: self.variables.deep_view(),
            mocked_outputs: self.mocked_outputs.deep_view(),
            inputs: self.inputs.deep_view(),
        }
    }
}

/// The mathematical content of a node and of all below it.
pub open spec fn node_model(node: InfraNode) -> InfraNodeModel
    decreases node,
{
    match node {
        InfraNode::Module(m) => InfraNodeModel::Module(m.deep_view()),
        InfraNode::Scope(s) => InfraNodeModel::Scope(
            ScopeNodeModel {
                scope: s.scope@,
                id: s.id@,
                variables: s.variables.deep_view(),
                children: Seq::new(
                    s.children@.len(),
                    |i: int|
                        {
                            if 0 <= i < s.children@.len() {
                                proof {
                                    vstd::std_specs::vec::axiom_vec_index_decreases(s.children, i);
                                }
                                (s.children[i].0@, node_model(s.children[i].1))
                            } else {
                                (Seq::empty(), InfraNodeModel::Scope(arbitrary()))
                            }
                        },
                ),
            },
        ),
    }
}

impl DeepView for InfraNode {
    type V = InfraNodeModel;

    open spec fn deep_view(&self) -> InfraNodeModel {
        node_model(*self)
    }
}

impl DeepView for ScopeNode {
    type V = ScopeNodeModel;

    open spec fn deep_view(&self) -> ScopeNodeModel {
        ScopeNodeModel {
            scope: self.scope@,
            id: self.id@,
            variables: self.variables.deep_view(),
            children: self.children.deep_view(),
        }
    }
}

impl DeepView for InfraFile {
    type V = InfraModel;

    open spec fn deep_view(&self) -> InfraModel {
        InfraModel {
            nodes: self.nodes.deep_view(),
            source_defaults: self.source_defaults.deep_view(),
        }
    }
}

/// The model of a scope node is made of the models of its parts.
pub proof fn lemma_node_parts(node: InfraNode)
    ensures
        node matches InfraNode::Scope(s) ==> node.deep_view() == InfraNodeModel::Scope(
            s.deep_view(),
        ),
        node matches InfraNode::Module(m) ==> node.deep_view() == InfraNodeModel::Module(
            m.deep_view(),
        ),
{
    match node {
        InfraNode::Scope(s) => {
            let a = node.deep_view()->Scope_0.children;
            let b = s.children.deep_view();
            assert(a.len() == b.len());
            assert forall|i: int| 0 <= i < a.len() implies a[i] == b[i] by {
                assert(b[i] == s.children@[i].deep_view());
            }
            assert(a =~= b);
        },
        _ => {},
    }
}

impl Duplicate for Dependency {
    fn duplicate(&self) -> (res: Dependency) {
        Dependency { id: self.id.clone(), name: self.name.clone() }
    }
}

impl Duplicate for InputValue {
    fn duplicate(&self) -> (res: InputValue) {
        match self {
            InputValue::Ref { path } => InputValue::Ref { path: path.clone() },
            InputValue::RefWithDefault { path, default } => InputValue::RefWithDefault {
                path: path.clone(),
                default: default.duplicate(),
            },
            InputValue::Default(v) => InputValue::Default(v.duplicate()),
        }
    }
}

impl Duplicate for ModuleNode {
    fn duplicate(&self) -> (res: ModuleNode) {
        ModuleNode {
            source: self.source.clone(),
            id: self.id.clone(),
            dependencies: self.dependencies.duplicate(),
            variables: self.variables.duplicate(),
            mocked_outputs: self.mocked_outputs.duplicate(),
            inputs: self.inputs.duplicate(),
            scope_ids: self.scope_ids.duplicate(),
        }
    }
}

impl Clone for Dependency {
    fn clone(&self) -> (res: Dependency)
        ensures
            res.deep_view() == self.deep_view(),
    {
        self.duplicate()
    }
}

impl Clone for InputValue {
    fn clone(&self) -> (res: InputValue)
        ensures
            res.deep_view() == self.deep_view(),
    {
        self.duplicate()
    }
}

impl Clone for ModuleNode {
    fn clone(&self) -> (res: ModuleNode)
        ensures
            res.deep_view() == self.deep_view(),
    {
        self.duplicate()
    }
}

} // verus!
