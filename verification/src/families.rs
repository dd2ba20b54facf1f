//! The stream parsers by the name of their call family.
use crate::error::ToolCallError;
use crate::kimi_k2::{kimi_k2_markers, KimiK2ToolStreamParser};
use crate::qwen3_coder::Qwen3CoderToolStreamParser;
use crate::scan::ScanState;
use crate::text::{same_text, slice_texts};
use crate::tools::{definitions_view, known_tools, Tool};
use vstd::prelude::*;

verus! {

/// The names of all families, each once.
pub const REGISTERED_FAMILIES: [&'static str; 9] = [
    "harmony",
    "harmony_text",
    "deepseek_v4",
    "qwen3_coder",
    "minimax_m2",
    "minimax_m3",
    "gemma4",
    "glm47",
    "kimi_k2",
];

/// A family whose grammar is not one of wrapped blocks, or whose parser stands in
/// another crate.
#[derive(Debug, Clone, Copy, PartialEq, Eq, Structural)]
pub enum DelegatedFamily {
    Harmony,
    DeepSeekV4,
    MiniMaxM2,
    MiniMaxM3,
    Gemma4,
    Glm47,
}

/// The parser of a family.
pub enum FamilyParser {
    KimiK2(KimiK2ToolStreamParser),
    Qwen3Coder(Qwen3CoderToolStreamParser),
    /// The caller brings the parser.
    Delegated(DelegatedFamily),
}

/// A family.
pub enum Family {
    KimiK2,
    Qwen3Coder,
    Delegated(DelegatedFamily),
}

/// The names of all families.
pub open spec fn family_names() -> Seq<Seq<char>> {
    seq![
        "harmony"@,
        "harmony_text"@,
        "deepseek_v4"@,
        "qwen3_coder"@,
        "minimax_m2"@,
        "minimax_m3"@,
        "gemma4"@,
        "glm47"@,
        "kimi_k2"@,
    ]
}

/// The family with the given name. Harmony has two names.
pub open spec fn family_named(name: Seq<char>) -> Option<Family> {
    if name == "harmony"@ || name == "harmony_text"@ {
        Some(Family::Delegated(DelegatedFamily::Harmony))
    } else if name == "deepseek_v4"@ {
        Some(Family::Delegated(DelegatedFamily::DeepSeekV4))
    } else if name == "qwen3_coder"@ {
        Some(Family::Qwen3Coder)
    } else if name == "minimax_m2"@ {
        Some(Family::Delegated(DelegatedFamily::MiniMaxM2))
    } else if name == "minimax_m3"@ {
        Some(Family::Delegated(DelegatedFamily::MiniMaxM3))
    } else if name == "gemma4"@ {
        Some(Family::Delegated(DelegatedFamily::Gemma4))
    } else if name == "glm47"@ {
        Some(Family::Delegated(DelegatedFamily::Glm47))
    } else if name == "kimi_k2"@ {
        Some(Family::KimiK2)
    } else {
        None
    }
}

/// The names of all families are those in [`REGISTERED_FAMILIES`].
pub proof fn lemma_registered_names()
    ensures
        slice_texts(REGISTERED_FAMILIES@) == family_names(),
{
    assert(slice_texts(REGISTERED_FAMILIES@) =~= family_names());
}

/// Exactly the registered names have a family.
pub proof fn lemma_registered(name: Seq<char>)
    ensures
        family_named(name) is Some <==> family_names().contains(name),
{
    let names = family_names();
    assert(names[0] == "harmony"@ && names[1] == "harmony_text"@ && names[2] == "deepseek_v4"@
        && names[3] == "qwen3_coder"@ && names[4] == "minimax_m2"@ && names[5] == "minimax_m3"@
        && names[6] == "gemma4"@ && names[7] == "glm47"@ && names[8] == "kimi_k2"@);
    if names.contains(name) {
        let at = choose|at: int| 0 <= at < names.len() && names[at] == name;
        assert(0 <= at < 9);
    }
}

/// A parser at the start of a stream for the family with the given name and for
/// the given tools. A name that is not registered is an error.
pub fn create_tool_parser_for_family(family: &str, tools: &[Tool]) -> (parser: Result<
    FamilyParser,
    ToolCallError,
>)
    ensures
        match (parser, family_named(family@)) {
            (Ok(FamilyParser::KimiK2(parser)), Some(Family::KimiK2)) => parser.is_ready()
                && parser.state() == ScanState::start() && parser.reader().config@
                == kimi_k2_markers(),
            (Ok(FamilyParser::Qwen3Coder(parser)), Some(Family::Qwen3Coder)) => parser.is_ready()
                && parser.state() == ScanState::start() && definitions_view(parser.reader().tools@)
                == known_tools(tools@),
            (Ok(FamilyParser::Delegated(family)), Some(Family::Delegated(expected))) => family
                == expected,
            (Err(ToolCallError::UnknownFamily(name)), None) => name@ == family@,
            _ => false,
        },
{
    if same_text(family, "harmony") || same_text(family, "harmony_text") {
        Ok(FamilyParser::Delegated(DelegatedFamily::Harmony))
    } else if same_text(family, "deepseek_v4") {
        Ok(FamilyParser::Delegated(DelegatedFamily::DeepSeekV4))
    } else if same_text(family, "qwen3_coder") {
        match Qwen3CoderToolStreamParser::create(tools) {
            Ok(parser) => Ok(FamilyParser::Qwen3Coder(parser)),
            Err(error) => Err(error),
        }
    } else if same_text(family, "minimax_m2") {
        Ok(FamilyParser::Delegated(DelegatedFamily::MiniMaxM2))
    } else if same_text(family, "minimax_m3") {
        Ok(FamilyParser::Delegated(DelegatedFamily::MiniMaxM3))
    } else if same_text(family, "gemma4") {
        Ok(FamilyParser::Delegated(DelegatedFamily::Gemma4))
    } else if same_text(family, "glm47") {
        Ok(FamilyParser::Delegated(DelegatedFamily::Glm47))
    } else if same_text(family, "kimi_k2") {
        match KimiK2ToolStreamParser::create(tools) {
            Ok(parser) => Ok(FamilyParser::KimiK2(parser)),
            Err(error) => Err(error),
        }
    } else {
        Err(ToolCallError::UnknownFamily(family.to_owned()))
    }
}

} // verus!
