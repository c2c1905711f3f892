//! The shape of an infrastructure document: which mappings are modules,
//! which are scopes, what an input declares, and what a module must not
//! set for itself.

use crate::parser::{
    Dependency, DependencyModel, InfraNode, InputModel, InputValue, ModuleModel, ModuleNode,
    ScopeNode,
};
use crate::value::{
    find_key, lemma_value_parts, lookup, upsert, upsert_entry, Dict, Duplicate, Value, ValueModel,
};
use vstd::prelude::*;
use vstd::string::StringExecFns;

verus! {

/// What is wrong with a document.
#[derive(Debug, PartialEq)]
pub enum InfraError {
    /// The text is not a document at all; the message says why.
    Yaml(String),
    /// The document does not have the shape of an infrastructure
    /// definition.
    InvalidStructure(String),
    /// A scope declares a source.
    InvalidScopeSource(String),
}

pub enum InfraErrorModel {
    Yaml(Seq<char>),
    InvalidStructure(Seq<char>),
    InvalidScopeSource(Seq<char>),
}

impl DeepView for InfraError {
    type V = InfraErrorModel;

    open spec fn deep_view(&self) -> InfraErrorModel {
        match self {
            InfraError::Yaml(m) => InfraErrorModel::Yaml(m@),
            InfraError::InvalidStructure(m) => InfraErrorModel::InvalidStructure(m@),
            InfraError::InvalidScopeSource(m) => InfraErrorModel::InvalidScopeSource(m@),
        }
    }
}

/// What a module declaration must not do.
#[derive(Debug, Clone, Copy, PartialEq, Eq, Structural)]
pub enum ModuleFault {
    /// It sets its id, which its place in the tree gives.
    IdSet,
    /// It names no source.
    SourceEmpty,
    /// Its source is no directory among the module sources.
    SourceDirMissing,
    /// It sets variables, which only the engine sets.
    VariablesSet,
    /// It sets its scope ids, which its place in the tree gives.
    ScopeIdsSet,
}

/// The first rule that a module declaration breaks, in the order of
/// `ModuleFault`.
pub open spec fn validation(m: ModuleModel, source_dir_exists: bool) -> Result<(), ModuleFault> {
    if m.id.len() != 0 {
        Err(ModuleFault::IdSet)
    } else if m.source.len() == 0 {
        Err(ModuleFault::SourceEmpty)
    } else if !source_dir_exists {
        Err(ModuleFault::SourceDirMissing)
    } else if m.variables.len() != 0 {
        Err(ModuleFault::VariablesSet)
    } else if m.scope_ids.len() != 0 {
        Err(ModuleFault::ScopeIdsSet)
    } else {
        Ok(())
    }
}

/// Checks a module declaration as it came from the document.
/// `source_dir_exists` says whether the module's source is a directory
/// among the module sources.
pub fn validate_module_node(module: &ModuleNode, source_dir_exists: bool) -> (res: Result<
    (),
    ModuleFault,
>)
    ensures
        res == validation(module.deep_view(), source_dir_exists),
{
    if !module.id.as_str().is_empty() {
        return Err(ModuleFault::IdSet);
    }
    if module.source.as_str().is_empty() {
        return Err(ModuleFault::SourceEmpty);
    }
    if !source_dir_exists {
        return Err(ModuleFault::SourceDirMissing);
    }
    if module.variables.len() != 0 {
        return Err(ModuleFault::VariablesSet);
    }
    if module.scope_ids.len() != 0 {
        return Err(ModuleFault::ScopeIdsSet);
    }
    Ok(())
}

/// The dependencies that a list of names declares: none resolved yet.
pub open spec fn declared(names: Seq<Seq<char>>) -> Seq<DependencyModel> {
    Seq::new(names.len(), |i: int| DependencyModel { id: Seq::empty(), name: names[i] })
}

/// Turns declared names into dependencies that are yet to be resolved.
pub fn dependencies_from_names(names: Vec<String>) -> (res: Vec<Dependency>)
    ensures
        res.deep_view() == declared(names.deep_view()),
{
    let mut out: Vec<Dependency> = Vec::new();
    let mut i: usize = 0;
    while i < names.len()
        invariant
            i <= names@.len(),
            out@.len() == i,
            forall|j: int|
                0 <= j < i ==> (#[trigger] out@[j]).deep_view() == (DependencyModel {
                    id: Seq::empty(),
                    name: names@[j]@,
                }),
        decreases names@.len() - i,
    {
        out.push(Dependency { id: String::new(), name: names[i].clone() });
        i += 1;
    }
    assert(out.deep_view() =~= declared(names.deep_view()));
    out
}

/// What a value declares as an input: a mapping with a string under
/// `from` is a reference, with the value under `default` as its default
/// where there is one; anything else is a literal.
pub open spec fn input_of(v: ValueModel) -> InputModel {
    match v {
        ValueModel::Mapping(m) => match lookup(m, "from"@) {
            Some(ValueModel::String(path)) => match lookup(m, "default"@) {
                Some(default) => InputModel::RefWithDefault { path, default },
                None => InputModel::Ref { path },
            },
            _ => InputModel::Default(v),
        },
        _ => InputModel::Default(v),
    }
}

impl InputValue {
    /// Reads an input declaration.
    pub fn from_value(val: Value) -> (res: InputValue)
        ensures
            res.deep_view() == input_of(val.deep_view()),
    {
        proof {
            lemma_value_parts(val);
        }
        let found: Option<InputValue> = match &val {
            Value::Mapping(map) => {
                let from_key = String::from_str("from");
                let default_key = String::from_str("default");
                match find_key(map, &from_key) {
                    Some(i) => {
                        assert(map.deep_view()[i as int] == map@[i as int].deep_view());
                        match &map[i].1 {
                            Value::String(path) => match find_key(map, &default_key) {
                                Some(d) => {
                                    assert(map.deep_view()[d as int] == map@[d as int].deep_view());
                                    Some(
                                        InputValue::RefWithDefault {
                                            path: path.clone(),
                                            default: map[d].1.duplicate(),
                                        },
                                    )
                                },
                                None => Some(InputValue::Ref { path: path.clone() }),
                            },
                            _ => None,
                        }
                    },
                    None => None,
                }
            },
            _ => None,
        };
        match found {
            Some(input) => input,
            None => InputValue::Default(val),
        }
    }
}

/// What a mapping of the document is.
#[derive(Debug, PartialEq)]
pub enum NodeShape {
    /// A module: it has a source.
    Module,
    /// A scope, with its type name, its variables and, for each nested
    /// mapping, its key, the id that the nested node gets, and the mapping
    /// itself.
    Scope { scope: String, variables: Vec<(String, Value)>, children: Vec<(String, String, Value)> },
}

pub enum ShapeModel {
    Module,
    Scope {
        scope: Seq<char>,
        variables: Dict<ValueModel>,
        children: Seq<(Seq<char>, Seq<char>, ValueModel)>,
    },
}

impl DeepView for NodeShape {
    type V = ShapeModel;

    open spec fn deep_view(&self) -> ShapeModel {
        match self {
            NodeShape::Module => ShapeModel::Module,
            NodeShape::Scope { scope, variables, children } => ShapeModel::Scope {
                scope: scope@,
                variables: variables.deep_view(),
                children: children.deep_view(),
            },
        }
    }
}

/// The first `count` entries, bound one after the other, so that of two
/// entries with one key the later one counts.
pub open spec fn bound_entries(entries: Dict<ValueModel>, count: nat) -> Dict<ValueModel>
    decreases count,
{
    if count == 0 || count > entries.len() {
        Seq::empty()
    } else {
        upsert(
            bound_entries(entries, (count - 1) as nat),
            entries[count - 1].0,
            entries[count - 1].1,
        )
    }
}

/// The variables that a scope declares: the entries of the mapping under
/// `variables`, none where there is no such mapping.
pub open spec fn scope_variables(m: Dict<ValueModel>) -> Dict<ValueModel> {
    match lookup(m, "variables"@) {
        Some(ValueModel::Mapping(vars)) => bound_entries(vars, vars.len()),
        _ => Seq::empty(),
    }
}

/// The id of the node under `key` in the node with id `path`.
pub open spec fn child_path(path: Seq<char>, key: Seq<char>) -> Seq<char> {
    path + "."@ + key
}

/// Whether an entry of a scope is a nested node: a mapping under a key
/// other than `scope` and `variables`.
pub open spec fn is_child(entry: (Seq<char>, ValueModel)) -> bool {
    entry.0 != "scope"@ && entry.0 != "variables"@ && entry.1 is Mapping
}

/// The nested nodes among the first `count` entries of a scope.
pub open spec fn scope_children(m: Dict<ValueModel>, path: Seq<char>, count: nat) -> Seq<
    (Seq<char>, Seq<char>, ValueModel),
>
    decreases count,
{
    if count == 0 || count > m.len() {
        Seq::empty()
    } else {
        let before = scope_children(m, path, (count - 1) as nat);
        if is_child(m[count - 1]) {
            before.push((m[count - 1].0, child_path(path, m[count - 1].0), m[count - 1].1))
        } else {
            before
        }
    }
}

/// What the node with id `path` is: a mapping with a source is a module; a
/// mapping with a string under `scope` is a scope; anything else is
/// refused, with a message that names the place.
pub open spec fn shape_of(v: ValueModel, path: Seq<char>) -> Result<ShapeModel, InfraErrorModel> {
    match v {
        ValueModel::Mapping(m) => {
            if lookup(m, "source"@) is Some {
                Ok(ShapeModel::Module)
            } else {
                match lookup(m, "scope"@) {
                    Some(ValueModel::String(scope)) => Ok(
                        ShapeModel::Scope {
                            scope,
                            variables: scope_variables(m),
                            children: scope_children(m, path, m.len()),
                        },
                    ),
                    Some(_) => Err(
                        InfraErrorModel::InvalidStructure(
                            "Scope at path '"@ + path + "' must have a non-empty 'scope'"@,
                        ),
                    ),
                    None => Err(
                        InfraErrorModel::InvalidStructure(
                            "Failed to parse node at "@ + path
                                + " it must be a scope (have scope key) or a module (have a source key)"@,
                        ),
                    ),
                }
            }
        },
        _ => Err(InfraErrorModel::InvalidStructure("expected mapping at "@ + path)),
    }
}

/// The shape of a node, as mathematical content.
pub open spec fn shape_result(res: Result<NodeShape, InfraError>) -> Result<
    ShapeModel,
    InfraErrorModel,
> {
    match res {
        Ok(s) => Ok(s.deep_view()),
        Err(e) => Err(e.deep_view()),
    }
}

/// The entries of a mapping, bound one after the other.
fn bind_entries(entries: &Vec<(String, Value)>) -> (res: Vec<(String, Value)>)
    ensures
        res.deep_view() == bound_entries(entries.deep_view(), entries@.len() as nat),
{
    let ghost all = entries.deep_view();
    let mut out: Vec<(String, Value)> = Vec::new();
    let mut i: usize = 0;
    assert(out.deep_view() =~= bound_entries(all, 0));
    while i < entries.len()
        invariant
            i <= entries@.len(),
            all == entries.deep_view(),
            out.deep_view() == bound_entries(all, i as nat),
        decreases entries@.len() - i,
    {
        assert(all[i as int] == entries@[i as int].deep_view());
        upsert_entry(&mut out, entries[i].0.clone(), entries[i].1.duplicate());
        i += 1;
    }
    out
}

/// Says what the node with id `path` is, and for a scope what it holds.
pub fn node_shape(value: &Value, path: &str) -> (res: Result<NodeShape, InfraError>)
    ensures
        shape_result(res) == shape_of(value.deep_view(), path@),
{
    proof {
        lemma_value_parts(*value);
    }
    let map = match value {
        Value::Mapping(map) => map,
        _ => {
            let message = String::from_str("expected mapping at ").concat(path);
            return Err(InfraError::InvalidStructure(message));
        },
    };
    let ghost m = map.deep_view();
    let source_key = String::from_str("source");
    let scope_key = String::from_str("scope");
    let variables_key = String::from_str("variables");
    if find_key(map, &source_key).is_some() {
        return Ok(NodeShape::Module);
    }
    let scope: String = match find_key(map, &scope_key) {
        None => {
            let message = String::from_str("Failed to parse node at ").concat(path).concat(
                " it must be a scope (have scope key) or a module (have a source key)",
            );
            return Err(InfraError::InvalidStructure(message));
        },
        Some(i) => {
            assert(m[i as int] == map@[i as int].deep_view());
            match &map[i].1 {
                Value::String(name) => name.clone(),
                _ => {
                    let message = String::from_str("Scope at path '").concat(path).concat(
                        "' must have a non-empty 'scope'",
                    );
                    return Err(InfraError::InvalidStructure(message));
                },
            }
        },
    };
    let variables: Vec<(String, Value)> = match find_key(map, &variables_key) {
        Some(i) => {
            assert(m[i as int] == map@[i as int].deep_view());
            proof {
                lemma_value_parts(map@[i as int].1);
            }
            match &map[i].1 {
                Value::Mapping(vars) => bind_entries(vars),
                _ => Vec::new(),
            }
        },
        None => Vec::new(),
    };
    assert(variables.deep_view() =~= scope_variables(m));
    let mut children: Vec<(String, String, Value)> = Vec::new();
    let mut i: usize = 0;
    assert(children.deep_view() =~= scope_children(m, path@, 0));
    while i < map.len()
        invariant
            i <= map@.len(),
            m == map.deep_view(),
            scope_key@ == "scope"@,
            variables_key@ == "variables"@,
            children.deep_view() == scope_children(m, path@, i as nat),
        decreases map@.len() - i,
    {
        assert(m[i as int] == map@[i as int].deep_view());
        let key = &map[i].0;
        let ghost before = children.deep_view();
        let nested = match &map[i].1 {
            Value::Mapping(_) => true,
            _ => false,
        };
        if nested && *key != scope_key && *key != variables_key {
            let id = String::from_str(path).concat(".").concat(key.as_str());
            children.push((key.clone(), id, map[i].1.duplicate()));
            assert(children.deep_view() =~= before.push(
                (m[i as int].0, child_path(path@, m[i as int].0), m[i as int].1),
            ));
        }
        i += 1;
    }
    Ok(NodeShape::Scope { scope, variables, children })
}

/// The module at `path`, once read and found valid: it gets its id.
pub fn finish_module(module: ModuleNode, path: &str) -> (res: InfraNode)
    ensures
        res.deep_view() == crate::parser::InfraNodeModel::Module(
            ModuleModel { id: path@, ..module.deep_view() },
        ),
{
    let mut module = module;
    module.id = path.to_owned();
    let res = InfraNode::Module(module);
    proof {
        crate::parser::lemma_node_parts(res);
    }
    res
}

/// The first `count` parsed children, bound under their keys.
pub open spec fn bound_children(
    children: Dict<crate::parser::InfraNodeModel>,
    count: nat,
) -> Dict<crate::parser::InfraNodeModel>
    decreases count,
{
    if count == 0 || count > children.len() {
        Seq::empty()
    } else {
        upsert(
            bound_children(children, (count - 1) as nat),
            children[count - 1].0,
            children[count - 1].1,
        )
    }
}

/// The scope at `path`, once its nested nodes are read.
pub fn finish_scope(
    path: &str,
    scope: String,
    variables: Vec<(String, Value)>,
    children: Vec<(String, InfraNode)>,
) -> (res: InfraNode)
    ensures
        res.deep_view() == crate::parser::InfraNodeModel::Scope(
            crate::parser::ScopeNodeModel {
                scope: scope@,
                id: path@,
                variables: variables.deep_view(),
                children: bound_children(children.deep_view(), children@.len() as nat),
            },
        ),
{
    let ghost entries = children@;
    let ghost all = children.deep_view();
    let mut bound: Vec<(String, InfraNode)> = Vec::new();
    assert(bound.deep_view() =~= bound_children(all, 0));
    for entry in it: children
        invariant
            it.seq() == entries,
            all.len() == entries.len(),
            forall|i: int| 0 <= i < entries.len() ==> all[i] == (#[trigger] entries[i]).deep_view(),
            bound.deep_view() == bound_children(all, it.index() as nat),
    {
        assert(all[it.index() as int] == entries[it.index() as int].deep_view());
        upsert_entry(&mut bound, entry.0, entry.1);
    }
    let res = InfraNode::Scope(ScopeNode { scope, id: path.to_owned(), variables, children: bound });
    proof {
        crate::parser::lemma_node_parts(res);
    }
    res
}

} // verus!
