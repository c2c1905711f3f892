//! Resolution of reference expressions against the outputs of
//! dependencies and the variables of enclosing scopes, and the injection of
//! the resolved inputs into a module.

use crate::error::{ErrorModel, StackError};
use crate::graph::{ModuleGraph, ScopeModel};
use crate::parser::{DependencyModel, InputModel, InputValue, ModuleModel, ModuleNode};
use crate::path::{
    find_in_range, first_position, lemma_first_position, parse_path, parse_path_spec, to_chars,
    PathSegment, SegmentModel,
};
use crate::value::{
    find_key, key_index, lemma_key_index, lemma_upsert_lookup, lemma_value_parts, lookup, upsert,
    upsert_entry, Dict, Duplicate, Value, ValueModel,
};
use vstd::prelude::*;
use vstd::string::StrSliceExecFns;

verus! {

/// The outputs that modules have published, by module id.
pub type OutputsMap = Vec<(String, Vec<(String, Value)>)>;

/// The key under which a wrapped value holds its content.
pub open spec fn wrapper_key() -> Seq<char> {
    seq!['v', 'a', 'l', 'u', 'e']
}

/// `v` with its wrappers taken off: as long as it is a mapping with the
/// wrapper key, what stands under that key takes its place.
pub open spec fn unwrap_value(v: ValueModel) -> ValueModel
    decreases v,
{
    match v {
        ValueModel::Mapping(m) => match key_index(m, wrapper_key()) {
            Some(i) => if 0 <= i < m.len() {
                unwrap_value(m[i].1)
            } else {
                v
            },
            None => v,
        },
        _ => v,
    }
}

/// One step into `v`: under a key of a mapping, or at an index of a
/// sequence.
pub open spec fn step(v: ValueModel, seg: SegmentModel) -> Option<ValueModel> {
    match seg {
        SegmentModel::Key(k) => match v {
            ValueModel::Mapping(m) => lookup(m, k),
            _ => None,
        },
        SegmentModel::Index(i) => match v {
            ValueModel::Sequence(s) => if i < s.len() {
                Some(s[i as int])
            } else {
                None
            },
            _ => None,
        },
    }
}

/// Where `path` leads from `v`, wrappers taken off after every step.
pub open spec fn walk(v: ValueModel, path: Seq<SegmentModel>) -> Option<ValueModel>
    decreases path.len(),
{
    if path.len() == 0 {
        Some(v)
    } else {
        match step(v, path[0]) {
            Some(next) => walk(unwrap_value(next), path.drop_first()),
            None => None,
        }
    }
}

/// A reference's head, up to the first dot, and the rest after it.
pub open spec fn split_head(path: Seq<char>) -> (Seq<char>, Seq<char>) {
    match first_position(path, '.') {
        Some(i) => (path.subrange(0, i), path.subrange(i + 1, path.len() as int)),
        None => (path, Seq::empty()),
    }
}

/// The names under which dependencies were declared.
pub open spec fn dependency_names(deps: Seq<DependencyModel>) -> Seq<Seq<char>> {
    deps.map_values(|d: DependencyModel| d.name)
}

/// Among the first `count` enclosing scopes, the innermost whose type name
/// is `ty`.
pub open spec fn scope_of_type(
    scopes: Dict<ScopeModel>,
    scope_ids: Seq<Seq<char>>,
    ty: Seq<char>,
    count: nat,
) -> Option<ScopeModel>
    decreases count,
{
    if count == 0 || count > scope_ids.len() {
        None
    } else {
        match lookup(scopes, scope_ids[count - 1]) {
            Some(s) => if s.name == ty {
                Some(s)
            } else {
                scope_of_type(scopes, scope_ids, ty, (count - 1) as nat)
            },
            None => scope_of_type(scopes, scope_ids, ty, (count - 1) as nat),
        }
    }
}

/// What the variables of the enclosing scope of type `ty` hold under the
/// path `rest`: nothing where no such scope encloses the module or the
/// path leads nowhere; an error where the path is malformed.
pub open spec fn scope_variable(
    scopes: Dict<ScopeModel>,
    scope_ids: Seq<Seq<char>>,
    ty: Seq<char>,
    rest: Seq<char>,
) -> Result<Option<ValueModel>, ErrorModel> {
    match scope_of_type(scopes, scope_ids, ty, scope_ids.len()) {
        None => Ok(None),
        Some(scope) => match parse_path_spec(rest) {
            None => Err(ErrorModel::ReferenceSyntaxError(rest)),
            Some(segs) => Ok(walk(ValueModel::Mapping(scope.variables), segs)),
        },
    }
}

/// What a reference stands for. A head that names a dependency leads into
/// that dependency's outputs and nowhere else: where the dependency has
/// published nothing, or the path leads nowhere in what it published, the
/// reference is not found, and the scopes are not tried; a malformed path
/// is a syntax error. Any other head is looked up among the enclosing
/// scopes.
pub open spec fn resolve_ref_spec(
    path: Seq<char>,
    deps: Seq<DependencyModel>,
    scope_ids: Seq<Seq<char>>,
    outputs: Dict<Dict<ValueModel>>,
    scopes: Dict<ScopeModel>,
) -> Result<Option<ValueModel>, ErrorModel> {
    let (head, rest) = split_head(path);
    match first_position(dependency_names(deps), head) {
        Some(i) => match lookup(outputs, deps[i].id) {
            None => Err(ErrorModel::ReferenceNotFound(path)),
            Some(out) => match parse_path_spec(rest) {
                None => Err(ErrorModel::ReferenceSyntaxError(path)),
                Some(segs) => match walk(ValueModel::Mapping(out), segs) {
                    Some(v) => Ok(Some(v)),
                    None => Err(ErrorModel::ReferenceNotFound(path)),
                },
            },
        },
        None => match scope_variable(scopes, scope_ids, head, rest) {
            Err(_) => Err(ErrorModel::ReferenceSyntaxError(path)),
            Ok(found) => Ok(found),
        },
    }
}

/// The mathematical content of a resolution's result.
pub open spec fn value_result(res: Result<Option<Value>, StackError>) -> Result<
    Option<ValueModel>,
    ErrorModel,
> {
    match res {
        Ok(v) => Ok(v.deep_view()),
        Err(e) => Err(e.deep_view()),
    }
}

/// The wrapper key as a string.
fn wrapper_name() -> (res: String)
    ensures
        res@ == wrapper_key(),
{
    proof {
        reveal_strlit("value");
    }
    let res = "value".to_owned();
    assert(res@ =~= wrapper_key());
    res
}

/// `v` with its wrappers taken off.
fn unwrap_wrappers<'a>(v: &'a Value, wrapper: &String) -> (res: &'a Value)
    requires
        wrapper@ == wrapper_key(),
    ensures
        res.deep_view() == unwrap_value(v.deep_view()),
    decreases v,
{
    proof {
        lemma_value_parts(*v);
    }
    match v {
        Value::Mapping(m) => match find_key(m, wrapper) {
            Some(i) => {
                proof {
                    vstd::std_specs::vec::axiom_vec_index_decreases(*m, i as int);
                    assert(m.deep_view()[i as int] == m@[i as int].deep_view());
                }
                unwrap_wrappers(&m[i].1, wrapper)
            },
            None => v,
        },
        _ => v,
    }
}

/// Follows `path` from `root`, taking wrappers off after every step.
/// Nothing where a key is absent, an index out of bounds, or the value at
/// hand of the wrong kind.
pub fn get_value_from_path(root: &Value, path: &Vec<PathSegment>) -> (res: Option<Value>)
    ensures
        res.deep_view() == walk(root.deep_view(), path.deep_view()),
{
    let wrapper = wrapper_name();
    let ghost segs = path.deep_view();
    let mut cur: &Value = root;
    let mut k: usize = 0;
    assert(segs.skip(0) =~= segs);
    while k < path.len()
        invariant
            k <= path@.len(),
            segs == path.deep_view(),
            wrapper@ == wrapper_key(),
            walk(root.deep_view(), segs) == walk(cur.deep_view(), segs.skip(k as int)),
        decreases path@.len() - k,
    {
        proof {
            lemma_value_parts(*cur);
            assert(segs.skip(k as int)[0] == path@[k as int].deep_view());
            assert(segs.skip(k as int).drop_first() =~= segs.skip(k + 1));
        }
        let next: &Value = match &path[k] {
            PathSegment::Key(key) => match cur {
                Value::Mapping(m) => match find_key(m, key) {
                    Some(i) => {
                        assert(m.deep_view()[i as int] == m@[i as int].deep_view());
                        &m[i].1
                    },
                    None => {
                        return None;
                    },
                },
                _ => {
                    return None;
                },
            },
            PathSegment::Index(i) => match cur {
                Value::Sequence(s) => {
                    if *i < s.len() {
                        assert(s.deep_view()[*i as int] == s@[*i as int].deep_view());
                        &s[*i]
                    } else {
                        return None;
                    }
                },
                _ => {
                    return None;
                },
            },
        };
        cur = unwrap_wrappers(next, &wrapper);
        k += 1;
    }
    Some(cur.duplicate())
}

/// Looks `rest` up among the variables of the innermost enclosing scope of
/// the given type.
pub fn find_scope_variable(
    module: &ModuleNode,
    scope_type: &str,
    rest: &str,
    graph: &ModuleGraph,
) -> (res: Result<Option<Value>, StackError>)
    ensures
        value_result(res) == scope_variable(
            graph.scopes_model(),
            module.deep_view().scope_ids,
            scope_type@,
            rest@,
        ),
{
    let ghost scopes = graph.scopes_model();
    let ghost scope_ids = module.scope_ids.deep_view();
    let wanted: String = scope_type.to_owned();
    let mut k: usize = module.scope_ids.len();
    while k > 0
        invariant
            k <= module.scope_ids@.len(),
            scopes == graph.scopes_model(),
            scope_ids == module.scope_ids.deep_view(),
            wanted@ == scope_type@,
            scope_of_type(scopes, scope_ids, wanted@, scope_ids.len()) == scope_of_type(
                scopes,
                scope_ids,
                wanted@,
                k as nat,
            ),
        decreases k,
    {
        assert(scope_ids[k - 1] == module.scope_ids@[k - 1]@);
        match graph.get_scope_by_id(module.scope_ids[k - 1].as_str()) {
            Some(scope) => {
                if scope.name == wanted {
                    let root = Value::Mapping(scope.variables);
                    proof {
                        lemma_value_parts(root);
                    }
                    return match parse_path(rest) {
                        Err(e) => Err(e),
                        Ok(segments) => Ok(get_value_from_path(&root, &segments)),
                    };
                }
            },
            None => {},
        }
        k -= 1;
    }
    Ok(None)
}

/// Resolves a reference such as `vpc.subnets[0]` or `region.id` for
/// `module`: into the outputs of the dependency that the head names, or
/// else into the variables of the enclosing scope of that type. Under a
/// dependency a path that leads nowhere is `ReferenceNotFound`; a head
/// that names nothing, and a path that leads nowhere under a scope, give
/// `Ok(None)`.
#[verifier::loop_isolation(false)]
pub fn resolve_ref(
    path: &str,
    module: &ModuleNode,
    outputs_map: &OutputsMap,
    graph: &ModuleGraph,
) -> (res: Result<Option<Value>, StackError>)
    ensures
        value_result(res) == resolve_ref_spec(
            path@,
            module.deep_view().dependencies,
            module.deep_view().scope_ids,
            outputs_map.deep_view(),
            graph.scopes_model(),
        ),
{
    let chars = to_chars(path);
    let n = chars.len();
    assert(path@.subrange(0, n as int) =~= path@);
    let (first, rest): (&str, &str) = match find_in_range(&chars, 0, n, '.') {
        Some(dot) => (path.substring_char(0, dot), path.substring_char(dot + 1, n)),
        None => (path, ""),
    };
    proof {
        reveal_strlit("");
        assert(""@ =~= Seq::<char>::empty());
        assert((first@, rest@) == split_head(path@));
    }
    let head: String = first.to_owned();
    let ghost deps = module.dependencies.deep_view();
    let ghost names = dependency_names(deps);
    let mut i: usize = 0;
    while i < module.dependencies.len()
        invariant
            i <= module.dependencies@.len(),
            deps == module.dependencies.deep_view(),
            names == dependency_names(deps),
            forall|j: int| 0 <= j < i ==> names[j] != head@,
        decreases module.dependencies@.len() - i,
    {
        let dep = &module.dependencies[i];
        assert(names[i as int] == dep.name@);
        if dep.name == head {
            proof {
                lemma_first_position(names, head@);
                assert(deps[i as int] == dep.deep_view());
            }
            let found = match find_key(outputs_map, &dep.id) {
                None => {
                    return Err(StackError::ReferenceNotFound(path.to_owned()));
                },
                Some(o) => o,
            };
            assert(outputs_map.deep_view()[found as int] == outputs_map@[found as int].deep_view());
            let root = Value::Mapping(outputs_map[found].1.duplicate());
            proof {
                lemma_value_parts(root);
            }
            let segments = match parse_path(rest) {
                Err(_) => {
                    return Err(StackError::ReferenceSyntaxError(path.to_owned()));
                },
                Ok(segments) => segments,
            };
            return match get_value_from_path(&root, &segments) {
                Some(v) => Ok(Some(v)),
                None => Err(StackError::ReferenceNotFound(path.to_owned())),
            };
        }
        i += 1;
    }
    proof {
        lemma_first_position(names, head@);
    }
    match find_scope_variable(module, first, rest, graph) {
        Err(_) => Err(StackError::ReferenceSyntaxError(path.to_owned())),
        Ok(found) => Ok(found),
    }
}

/// The value that an input gets. A reference must resolve; a reference
/// with a default takes the default wherever it does not resolve, but a
/// malformed path stays an error.
pub open spec fn input_outcome(
    input: InputModel,
    deps: Seq<DependencyModel>,
    scope_ids: Seq<Seq<char>>,
    outputs: Dict<Dict<ValueModel>>,
    scopes: Dict<ScopeModel>,
) -> Result<ValueModel, ErrorModel> {
    match input {
        InputModel::Default(v) => Ok(v),
        InputModel::Ref { path } => match resolve_ref_spec(path, deps, scope_ids, outputs, scopes) {
            Ok(Some(v)) => Ok(v),
            Ok(None) => Err(ErrorModel::ReferenceNotFound(path)),
            Err(e) => Err(e),
        },
        InputModel::RefWithDefault { path, default } => match resolve_ref_spec(
            path,
            deps,
            scope_ids,
            outputs,
            scopes,
        ) {
            Ok(Some(v)) => Ok(v),
            Ok(None) => Ok(default),
            Err(ErrorModel::ReferenceSyntaxError(p)) => Err(ErrorModel::ReferenceSyntaxError(p)),
            Err(_) => Ok(default),
        },
    }
}

/// `vars` after the first `count` inputs were resolved and bound, each
/// under its name; the error of the first input that fails.
pub open spec fn inject_upto(
    vars: Dict<ValueModel>,
    inputs: Dict<InputModel>,
    deps: Seq<DependencyModel>,
    scope_ids: Seq<Seq<char>>,
    outputs: Dict<Dict<ValueModel>>,
    scopes: Dict<ScopeModel>,
    count: nat,
) -> Result<Dict<ValueModel>, ErrorModel>
    decreases count,
{
    if count == 0 || count > inputs.len() {
        Ok(vars)
    } else {
        match inject_upto(vars, inputs, deps, scope_ids, outputs, scopes, (count - 1) as nat) {
            Err(e) => Err(e),
            Ok(sofar) => match input_outcome(inputs[count - 1].1, deps, scope_ids, outputs, scopes) {
                Err(e) => Err(e),
                Ok(v) => Ok(upsert(sofar, inputs[count - 1].0, v)),
            },
        }
    }
}

/// The module with its variables set from its inputs.
pub open spec fn with_variables(module: ModuleModel, vars: Dict<ValueModel>) -> ModuleModel {
    ModuleModel { variables: vars, ..module }
}

/// The module after input injection.
pub open spec fn injected(
    module: ModuleModel,
    outputs: Dict<Dict<ValueModel>>,
    scopes: Dict<ScopeModel>,
) -> Result<ModuleModel, ErrorModel> {
    match inject_upto(
        module.variables,
        module.inputs,
        module.dependencies,
        module.scope_ids,
        outputs,
        scopes,
        module.inputs.len(),
    ) {
        Ok(vars) => Ok(with_variables(module, vars)),
        Err(e) => Err(e),
    }
}

/// The outcome of an input as mathematical content.
pub open spec fn outcome_model(res: Result<Value, StackError>) -> Result<ValueModel, ErrorModel> {
    match res {
        Ok(v) => Ok(v.deep_view()),
        Err(e) => Err(e.deep_view()),
    }
}

/// The value for one declared input of `module`.
pub fn resolve_input(
    input: &InputValue,
    module: &ModuleNode,
    outputs_map: &OutputsMap,
    graph: &ModuleGraph,
) -> (res: Result<Value, StackError>)
    ensures
        outcome_model(res) == input_outcome(
            input.deep_view(),
            module.deep_view().dependencies,
            module.deep_view().scope_ids,
            outputs_map.deep_view(),
            graph.scopes_model(),
        ),
{
    match input {
        InputValue::Default(v) => Ok(v.duplicate()),
        InputValue::Ref { path } => match resolve_ref(path.as_str(), module, outputs_map, graph) {
            Ok(Some(v)) => Ok(v),
            Ok(None) => Err(StackError::ReferenceNotFound(path.clone())),
            Err(e) => Err(e),
        },
        InputValue::RefWithDefault { path, default } => match resolve_ref(
            path.as_str(),
            module,
            outputs_map,
            graph,
        ) {
            Ok(Some(v)) => Ok(v),
            Ok(None) => Ok(default.duplicate()),
            Err(StackError::ReferenceSyntaxError(p)) => Err(StackError::ReferenceSyntaxError(p)),
            Err(_) => Ok(default.duplicate()),
        },
    }
}

/// Resolves every declared input of `module` and binds the value under
/// the input's name among the module's variables. At the first input that
/// fails the injection stops with that input's error; the variables bound
/// until then stay.
pub fn inject_inputs(module: &mut ModuleNode, outputs_map: &OutputsMap, graph: &ModuleGraph) -> (res:
    Result<(), StackError>)
    ensures
        final(module).deep_view() == with_variables(
            old(module).deep_view(),
            final(module).deep_view().variables,
        ),
        match res {
            Ok(()) => injected(
                old(module).deep_view(),
                outputs_map.deep_view(),
                graph.scopes_model(),
            ) == Ok::<ModuleModel, ErrorModel>(final(module).deep_view()),
            Err(e) => injected(
                old(module).deep_view(),
                outputs_map.deep_view(),
                graph.scopes_model(),
            ) == Err::<ModuleModel, ErrorModel>(e.deep_view()),
        },
{
    let ghost start = module.deep_view();
    let ghost outputs = outputs_map.deep_view();
    let ghost scopes = graph.scopes_model();
    let n = module.inputs.len();
    let mut i: usize = 0;
    while i < n
        invariant
            i <= n,
            n == start.inputs.len(),
            n == module.inputs@.len(),
            start == old(module).deep_view(),
            outputs == outputs_map.deep_view(),
            scopes == graph.scopes_model(),
            module.deep_view() == with_variables(start, module.variables.deep_view()),
            inject_upto(
                start.variables,
                start.inputs,
                start.dependencies,
                start.scope_ids,
                outputs,
                scopes,
                i as nat,
            ) == Ok::<Dict<ValueModel>, ErrorModel>(module.variables.deep_view()),
        decreases n - i,
    {
        assert(start.inputs[i as int] == module.inputs@[i as int].deep_view());
        let resolved = match resolve_input(&module.inputs[i].1, module, outputs_map, graph) {
            Ok(v) => v,
            Err(e) => {
                proof {
                    lemma_inject_error_stays(
                        start.variables,
                        start.inputs,
                        start.dependencies,
                        start.scope_ids,
                        outputs,
                        scopes,
                        (i + 1) as nat,
                        n as nat,
                    );
                }
                return Err(e);
            },
        };
        let key = module.inputs[i].0.clone();
        upsert_entry(&mut module.variables, key, resolved);
        i += 1;
    }
    Ok(())
}

/// Once an input has failed, the injection has failed.
proof fn lemma_inject_error_stays(
    vars: Dict<ValueModel>,
    inputs: Dict<InputModel>,
    deps: Seq<DependencyModel>,
    scope_ids: Seq<Seq<char>>,
    outputs: Dict<Dict<ValueModel>>,
    scopes: Dict<ScopeModel>,
    at: nat,
    count: nat,
)
    requires
        at <= count <= inputs.len(),
        inject_upto(vars, inputs, deps, scope_ids, outputs, scopes, at) is Err,
    ensures
        inject_upto(vars, inputs, deps, scope_ids, outputs, scopes, count) == inject_upto(
            vars,
            inputs,
            deps,
            scope_ids,
            outputs,
            scopes,
            at,
        ),
    decreases count,
{
    if at < count {
        lemma_inject_error_stays(
            vars,
            inputs,
            deps,
            scope_ids,
            outputs,
            scopes,
            at,
            (count - 1) as nat,
        );
    }
}

/// A reference with a default never fails for want of a value: unless its
/// path is malformed, the input gets what the reference resolves to, and
/// the default, unchanged, wherever it resolves to nothing.
pub proof fn lemma_default_never_fails(
    path: Seq<char>,
    default: ValueModel,
    deps: Seq<DependencyModel>,
    scope_ids: Seq<Seq<char>>,
    outputs: Dict<Dict<ValueModel>>,
    scopes: Dict<ScopeModel>,
)
    requires
        !(resolve_ref_spec(path, deps, scope_ids, outputs, scopes) matches Err(
            ErrorModel::ReferenceSyntaxError(_),
        )),
    ensures
        input_outcome(
            InputModel::RefWithDefault { path, default },
            deps,
            scope_ids,
            outputs,
            scopes,
        ) == Ok::<ValueModel, ErrorModel>(
            match resolve_ref_spec(path, deps, scope_ids, outputs, scopes) {
                Ok(Some(v)) => v,
                _ => default,
            },
        ),
{
}

/// The value that the last of the first `count` inputs named `key` gets.
pub open spec fn last_value(
    inputs: Dict<InputModel>,
    deps: Seq<DependencyModel>,
    scope_ids: Seq<Seq<char>>,
    outputs: Dict<Dict<ValueModel>>,
    scopes: Dict<ScopeModel>,
    key: Seq<char>,
    count: nat,
) -> Option<ValueModel>
    decreases count,
{
    if count == 0 || count > inputs.len() {
        None
    } else if inputs[count - 1].0 == key {
        Some(input_outcome(inputs[count - 1].1, deps, scope_ids, outputs, scopes)->Ok_0)
    } else {
        last_value(inputs, deps, scope_ids, outputs, scopes, key, (count - 1) as nat)
    }
}

/// An injection succeeds where each input does, whatever the variables
/// were; and then a name holds the value of the last input of that name,
/// or what it held where no input has that name.
proof fn lemma_inject_lookup(
    vars: Dict<ValueModel>,
    inputs: Dict<InputModel>,
    deps: Seq<DependencyModel>,
    scope_ids: Seq<Seq<char>>,
    outputs: Dict<Dict<ValueModel>>,
    scopes: Dict<ScopeModel>,
    count: nat,
)
    requires
        count <= inputs.len(),
    ensures
        inject_upto(vars, inputs, deps, scope_ids, outputs, scopes, count) is Ok <==> forall|i: int|
            0 <= i < count ==> input_outcome(
                (#[trigger] inputs[i]).1,
                deps,
                scope_ids,
                outputs,
                scopes,
            ) is Ok,
        inject_upto(vars, inputs, deps, scope_ids, outputs, scopes, count) is Ok ==> forall|
            key: Seq<char>,
        |
            #[trigger] lookup(
                inject_upto(vars, inputs, deps, scope_ids, outputs, scopes, count)->Ok_0,
                key,
            ) == match last_value(inputs, deps, scope_ids, outputs, scopes, key, count) {
                Some(v) => Some(v),
                None => lookup(vars, key),
            },
    decreases count,
{
    if count > 0 {
        let before = (count - 1) as nat;
        lemma_inject_lookup(vars, inputs, deps, scope_ids, outputs, scopes, before);
        let last = inputs[count - 1];
        if inject_upto(vars, inputs, deps, scope_ids, outputs, scopes, count) is Ok {
            let sofar = inject_upto(vars, inputs, deps, scope_ids, outputs, scopes, before)->Ok_0;
            let v = input_outcome(last.1, deps, scope_ids, outputs, scopes)->Ok_0;
            assert forall|key: Seq<char>| #[trigger]
                lookup(upsert(sofar, last.0, v), key) == match last_value(
                    inputs,
                    deps,
                    scope_ids,
                    outputs,
                    scopes,
                    key,
                    count,
                ) {
                    Some(w) => Some(w),
                    None => lookup(vars, key),
                } by {
                lemma_upsert_lookup(sofar, last.0, v, key);
            }
        }
    }
}

/// Two lists with the same keys in the same places, and the same entries
/// wherever an entry is not the first with its key.
pub open spec fn same_but_first<M>(a: Dict<M>, b: Dict<M>) -> bool {
    &&& a.len() == b.len()
    &&& forall|p: int| 0 <= p < a.len() ==> (#[trigger] a[p]).0 == b[p].0
    &&& forall|p: int|
        0 <= p < a.len() && key_index(b, b[p].0) != Some(p) ==> #[trigger] a[p] == b[p]
}

/// Lists with the same keys in the same places find a key in the same
/// place.
proof fn lemma_same_keys_same_index<M>(a: Dict<M>, b: Dict<M>, key: Seq<char>)
    requires
        a.len() == b.len(),
        forall|p: int| 0 <= p < a.len() ==> (#[trigger] a[p]).0 == b[p].0,
    ensures
        key_index(a, key) == key_index(b, key),
{
    lemma_key_index(a, key);
    lemma_key_index(b, key);
    match key_index(a, key) {
        Some(i) => {
            assert(b[i].0 == a[i].0);
            match key_index(b, key) {
                Some(j) => {
                    assert(a[j].0 == b[j].0);
                },
                None => {},
            }
        },
        None => {
            match key_index(b, key) {
                Some(j) => {
                    assert(a[j].0 == b[j].0);
                },
                None => {},
            }
        },
    }
}

/// Binding a key that is bound already changes the first entry with that
/// key and nothing else.
proof fn lemma_upsert_keeps_shape<M>(a: Dict<M>, b: Dict<M>, key: Seq<char>, value: M)
    requires
        same_but_first(a, b),
        key_index(b, key) is Some,
    ensures
        same_but_first(upsert(a, key, value), b),
{
    lemma_same_keys_same_index(a, b, key);
    lemma_key_index(a, key);
    let i = key_index(a, key)->0;
    let after = upsert(a, key, value);
    assert(b[i].0 == a[i].0);
    assert forall|p: int| 0 <= p < after.len() implies (#[trigger] after[p]).0 == b[p].0 by {
        assert(a[p].0 == b[p].0);
    }
    assert forall|p: int| 0 <= p < after.len() && key_index(b, b[p].0) != Some(p) implies #[trigger]
        after[p] == b[p] by {
        assert(a[p] == b[p]);
    }
}

/// Lists of one shape that hold the same under every key are the same.
proof fn lemma_same_shape_same_lookups<M>(a: Dict<M>, b: Dict<M>)
    requires
        same_but_first(a, b),
        forall|key: Seq<char>| #[trigger] lookup(a, key) == lookup(b, key),
    ensures
        a == b,
{
    assert forall|p: int| 0 <= p < a.len() implies a[p] == b[p] by {
        let key = b[p].0;
        assert(a[p].0 == key);
        if key_index(b, key) == Some(p) {
            lemma_same_keys_same_index(a, b, key);
            assert(lookup(a, key) == lookup(b, key));
        } else {
            assert(a[p] == b[p]);
        }
    }
    assert(a =~= b);
}

/// A second injection into variables that hold every input's name keeps
/// their shape.
proof fn lemma_second_injection_keeps_shape(
    vars: Dict<ValueModel>,
    inputs: Dict<InputModel>,
    deps: Seq<DependencyModel>,
    scope_ids: Seq<Seq<char>>,
    outputs: Dict<Dict<ValueModel>>,
    scopes: Dict<ScopeModel>,
    count: nat,
)
    requires
        count <= inputs.len(),
        inject_upto(vars, inputs, deps, scope_ids, outputs, scopes, count) is Ok,
        forall|i: int| 0 <= i < count ==> key_index(vars, (#[trigger] inputs[i]).0) is Some,
    ensures
        same_but_first(
            inject_upto(vars, inputs, deps, scope_ids, outputs, scopes, count)->Ok_0,
            vars,
        ),
    decreases count,
{
    if count > 0 {
        let before = (count - 1) as nat;
        lemma_second_injection_keeps_shape(vars, inputs, deps, scope_ids, outputs, scopes, before);
        let sofar = inject_upto(vars, inputs, deps, scope_ids, outputs, scopes, before)->Ok_0;
        let last = inputs[count - 1];
        assert(key_index(vars, inputs[count - 1].0) is Some);
        lemma_upsert_keeps_shape(
            sofar,
            vars,
            last.0,
            input_outcome(last.1, deps, scope_ids, outputs, scopes)->Ok_0,
        );
    }
}

/// The last of the first `count` inputs named `key`, if there is one.
proof fn lemma_last_value_names_an_input(
    inputs: Dict<InputModel>,
    deps: Seq<DependencyModel>,
    scope_ids: Seq<Seq<char>>,
    outputs: Dict<Dict<ValueModel>>,
    scopes: Dict<ScopeModel>,
    count: nat,
    i: int,
)
    requires
        count <= inputs.len(),
        0 <= i < count,
    ensures
        last_value(inputs, deps, scope_ids, outputs, scopes, inputs[i].0, count) is Some,
    decreases count,
{
    if i < count - 1 && inputs[count - 1].0 != inputs[i].0 {
        lemma_last_value_names_an_input(
            inputs,
            deps,
            scope_ids,
            outputs,
            scopes,
            (count - 1) as nat,
            i,
        );
    }
}

/// Injection is idempotent: with the published outputs and the scopes
/// unchanged, injecting the inputs of a module that has its inputs
/// injected already succeeds and leaves its variables, and all else, as
/// they are.
pub proof fn lemma_injection_idempotent(
    module: ModuleModel,
    outputs: Dict<Dict<ValueModel>>,
    scopes: Dict<ScopeModel>,
)
    requires
        injected(module, outputs, scopes) is Ok,
    ensures
        injected(injected(module, outputs, scopes)->Ok_0, outputs, scopes) == injected(
            module,
            outputs,
            scopes,
        ),
{
    let inputs = module.inputs;
    let deps = module.dependencies;
    let scope_ids = module.scope_ids;
    let n = inputs.len();
    let once = injected(module, outputs, scopes)->Ok_0;
    let first = once.variables;
    lemma_inject_lookup(module.variables, inputs, deps, scope_ids, outputs, scopes, n);
    lemma_inject_lookup(first, inputs, deps, scope_ids, outputs, scopes, n);
    let second = inject_upto(first, inputs, deps, scope_ids, outputs, scopes, n)->Ok_0;
    assert forall|i: int| 0 <= i < n implies key_index(first, (#[trigger] inputs[i]).0) is Some by {
        lemma_last_value_names_an_input(inputs, deps, scope_ids, outputs, scopes, n, i);
        assert(lookup(first, inputs[i].0) is Some);
    }
    lemma_second_injection_keeps_shape(first, inputs, deps, scope_ids, outputs, scopes, n);
    assert forall|key: Seq<char>| #[trigger] lookup(second, key) == lookup(first, key) by {
        assert(lookup(first, key) == match last_value(
            inputs,
            deps,
            scope_ids,
            outputs,
            scopes,
            key,
            n,
        ) {
            Some(v) => Some(v),
            None => lookup(module.variables, key),
        });
    }
    lemma_same_shape_same_lookups(second, first);
}

} // verus!
