//! What can be asked of a module, and the runners that carry it out.

use crate::parser::ModuleNode;
use crate::value::{upsert, upsert_entry, Dict, Duplicate, Value, ValueModel};
use std::path::PathBuf;
use vstd::prelude::*;
use vstd::string::StringExecFns;

verus! {

/// The standard library's owned path. It is carried through and never
/// looked into.
#[verifier::external_type_specification]
#[verifier::external_body]
pub struct ExPathBuf(PathBuf);

/// The operation requested for the target of a run.
#[derive(Debug, Clone, Copy, PartialEq, Eq, Structural)]
pub enum TerraformAction {
    Plan,
    Apply,
    Destroy,
}

/// A runner that touches nothing: its outputs are the canned outputs of
/// the module.
#[derive(Debug)]
pub struct MockRunner;

/// The outputs that a module shows to a runner that does not run it.
pub open spec fn mocked_outputs_of(mocked: Option<Dict<ValueModel>>) -> Dict<ValueModel> {
    match mocked {
        Some(outputs) => outputs,
        None => Seq::empty(),
    }
}

impl MockRunner {
    /// The canned outputs of `module`; none where it declares none.
    pub fn output(&self, module: &ModuleNode) -> (res: Vec<(String, Value)>)
        ensures
            res.deep_view() == mocked_outputs_of(module.deep_view().mocked_outputs),
    {
        match &module.mocked_outputs {
            Some(outputs) => outputs.duplicate(),
            None => {
                let empty: Vec<(String, Value)> = Vec::new();
                assert(empty.deep_view() =~= Seq::empty());
                empty
            },
        }
    }
}

/// The runner that drives the real tool: where the tool's binary lies,
/// where each module keeps its working state, and where the module
/// sources are.
#[derive(Debug)]
pub struct TerraformRunner {
    pub bin_path: PathBuf,
    pub cache_dir: PathBuf,
    pub modules_dir: PathBuf,
}

/// The text that the tool gets for a variable: a string as it is, any
/// other value in the encoding that the caller supplies for it.
pub open spec fn variable_text(value: ValueModel, encoded: Seq<char>) -> Seq<char> {
    match value {
        ValueModel::String(s) => s,
        _ => encoded,
    }
}

/// The environment for the first `count` variables: each under its name
/// behind the prefix `TF_VAR_`.
pub open spec fn variable_env(vars: Dict<ValueModel>, encoded: Seq<Seq<char>>, count: nat) -> Seq<
    (Seq<char>, Seq<char>),
>
    decreases count,
{
    if count == 0 || count > vars.len() {
        Seq::empty()
    } else {
        upsert(
            variable_env(vars, encoded, (count - 1) as nat),
            "TF_VAR_"@ + vars[count - 1].0,
            variable_text(vars[count - 1].1, encoded[count - 1]),
        )
    }
}

impl TerraformRunner {
    /// Turns the variables of a module into environment variables for the
    /// tool. `encoded` holds, for each variable in turn, the JSON text of
    /// its value, which is used for every value but a string.
    pub fn tf_var_env(vars: &Vec<(String, Value)>, encoded: &Vec<String>) -> (res: Vec<
        (String, String),
    >)
        requires
            encoded@.len() == vars@.len(),
        ensures
            res.deep_view() == variable_env(
                vars.deep_view(),
                encoded.deep_view(),
                vars@.len() as nat,
            ),
    {
        let ghost all = vars.deep_view();
        let ghost texts = encoded.deep_view();
        let mut env: Vec<(String, String)> = Vec::new();
        let mut i: usize = 0;
        assert(env.deep_view() =~= variable_env(all, texts, 0));
        while i < vars.len()
            invariant
                i <= vars@.len(),
                encoded@.len() == vars@.len(),
                all == vars.deep_view(),
                texts == encoded.deep_view(),
                env.deep_view() == variable_env(all, texts, i as nat),
            decreases vars@.len() - i,
        {
            assert(all[i as int] == vars@[i as int].deep_view());
            assert(texts[i as int] == encoded@[i as int]@);
            let text = match &vars[i].1 {
                Value::String(s) => s.clone(),
                _ => encoded[i].clone(),
            };
            let name = String::from_str("TF_VAR_").concat(vars[i].0.as_str());
            upsert_entry(&mut env, name, text);
            i += 1;
        }
        env
    }

    pub fn new(bin_path: PathBuf, cache_dir: PathBuf, modules_dir: PathBuf) -> (res: Self)
        ensures
            res.bin_path == bin_path,
            res.cache_dir == cache_dir,
            res.modules_dir == modules_dir,
    {
        Self { bin_path, cache_dir, modules_dir }
    }
}

} // verus!
