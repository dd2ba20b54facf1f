//! The tools that a model may call.
use crate::json::{JsonModel, JsonValue};
use vstd::prelude::*;

verus! {

/// A tool as a request offers it.
#[derive(Debug, Clone, PartialEq, Eq)]
pub struct Tool {
    pub name: String,
    pub description: Option<String>,
    /// The JSON schema of the arguments.
    pub parameters: JsonValue,
    pub strict: Option<bool>,
}

/// A tool as the parsers know it.
#[derive(Debug, Clone, PartialEq, Eq)]
pub struct ToolDefinition {
    pub name: String,
    /// The JSON schema of the arguments.
    pub parameters: Option<JsonValue>,
    pub strict: Option<bool>,
}

/// What a [`ToolDefinition`] holds.
pub struct DefinitionModel {
    pub name: Seq<char>,
    pub parameters: Option<JsonModel>,
    pub strict: Option<bool>,
}

impl View for ToolDefinition {
    type V = DefinitionModel;

    open spec fn view(&self) -> DefinitionModel {
        DefinitionModel {
            name: self.name@,
            parameters: match self.parameters {
                Some(parameters) => Some(parameters@),
                None => None,
            },
            strict: self.strict,
        }
    }
}

/// What a run of definitions holds.
pub open spec fn definitions_view(tools: Seq<ToolDefinition>) -> Seq<DefinitionModel> {
    tools.map_values(|tool: ToolDefinition| tool@)
}

impl Tool {
    /// What the parsers know of the tool.
    pub open spec fn known(self) -> DefinitionModel {
        DefinitionModel {
            name: self.name@,
            parameters: Some(self.parameters@),
            strict: self.strict,
        }
    }

    /// The tool as the parsers know it.
    pub fn definition(&self) -> (definition: ToolDefinition)
        ensures
            definition@ == self.known(),
    {
        ToolDefinition {
            name: self.name.clone(),
            parameters: Some(self.parameters.duplicate()),
            strict: self.strict,
        }
    }
}

/// What the parsers know of a run of tools.
pub open spec fn known_tools(tools: Seq<Tool>) -> Seq<DefinitionModel> {
    tools.map_values(|tool: Tool| tool.known())
}

/// The tools as the parsers know them.
pub fn definitions_of(tools: &[Tool]) -> (definitions: Vec<ToolDefinition>)
    ensures
        definitions_view(definitions@) == known_tools(tools@),
{
    let mut definitions: Vec<ToolDefinition> = Vec::new();
    let mut at: usize = 0;
    while at < tools.len()
        invariant
            at <= tools@.len(),
            definitions_view(definitions@) == known_tools(tools@.take(at as int)),
        decreases tools.len() - at,
    {
        let ghost before = definitions@;
        definitions.push(tools[at].definition());
        at += 1;
        assert(definitions_view(definitions@) =~= definitions_view(before).push(
            definitions@.last()@,
        ));
        assert(known_tools(tools@.take(at as int)) =~= known_tools(tools@.take(at - 1)).push(
            tools@[at - 1].known(),
        ));
    }
    assert(tools@.take(at as int) =~= tools@);
    definitions
}

} // verus!
