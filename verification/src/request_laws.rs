//! What holds of the names, the tools and the errors of a request.
use crate::error::ToolCallError;
use crate::families::{family_named, DelegatedFamily, Family};
use crate::tools::{definitions_view, known_tools, Tool, ToolDefinition};
use vstd::prelude::*;

verus! {

/// Each family has its own names, and no other text names it.
pub proof fn lemma_family_names(name: Seq<char>)
    ensures
        family_named(name) == Some(Family::KimiK2) <==> name == "kimi_k2"@,
        family_named(name) == Some(Family::Qwen3Coder) <==> name == "qwen3_coder"@,
        family_named(name) == Some(Family::Delegated(DelegatedFamily::Harmony)) <==> name
            == "harmony"@ || name == "harmony_text"@,
        family_named(name) == Some(Family::Delegated(DelegatedFamily::DeepSeekV4)) <==> name
            == "deepseek_v4"@,
        family_named(name) == Some(Family::Delegated(DelegatedFamily::MiniMaxM2)) <==> name
            == "minimax_m2"@,
        family_named(name) == Some(Family::Delegated(DelegatedFamily::MiniMaxM3)) <==> name
            == "minimax_m3"@,
        family_named(name) == Some(Family::Delegated(DelegatedFamily::Gemma4)) <==> name
            == "gemma4"@,
        family_named(name) == Some(Family::Delegated(DelegatedFamily::Glm47)) <==> name
            == "glm47"@,
{
    reveal_strlit("harmony");
    reveal_strlit("harmony_text");
    reveal_strlit("deepseek_v4");
    reveal_strlit("qwen3_coder");
    reveal_strlit("minimax_m2");
    reveal_strlit("minimax_m3");
    reveal_strlit("gemma4");
    reveal_strlit("glm47");
    reveal_strlit("kimi_k2");
    assert("harmony"@[0] == 'h' && "harmony_text"@[0] == 'h');
    assert("deepseek_v4"@[0] == 'd' && "qwen3_coder"@[0] == 'q');
    assert("minimax_m2"@[0] == 'm' && "minimax_m2"@[9] == '2');
    assert("minimax_m3"@[0] == 'm' && "minimax_m3"@[9] == '3');
    assert("gemma4"@.len() == 6 && "glm47"@.len() == 5);
    assert("gemma4"@[0] == 'g' && "glm47"@[0] == 'g' && "kimi_k2"@[0] == 'k');
}

/// The parsers know every tool of a request, in order, by its name, its schema and whether it
/// is strict.
pub proof fn lemma_known_tools(tools: Seq<Tool>, definitions: Seq<ToolDefinition>, at: int)
    requires
        definitions_view(definitions) == known_tools(tools),
        0 <= at < tools.len(),
    ensures
        definitions.len() == tools.len(),
        definitions[at].name@ == tools[at].name@,
        definitions[at].parameters matches Some(schema) && schema@ == tools[at].parameters@,
        definitions[at].strict == tools[at].strict,
{
    assert(definitions_view(definitions).len() == definitions.len());
    assert(definitions_view(definitions)[at] == definitions[at]@);
    assert(known_tools(tools)[at] == tools[at].known());
}

/// An error names what it is about: the reason that the Python parser gives, or the name of the
/// family or of the tool in quotes.
pub proof fn lemma_error_words(text: String)
    ensures
        ToolCallError::PythonSyntax(text).words() == text@,
        ToolCallError::PythonSourceTooLong.words() == "the calls are too long to be parsed"@,
        ToolCallError::UnknownFamily(text).words() == "no Dynamo parser v2 for family '"@ + text@
            + "'"@,
        ToolCallError::UnknownTool(text).words() == "no tool is named '"@ + text@ + "'"@,
{
}

} // verus!
