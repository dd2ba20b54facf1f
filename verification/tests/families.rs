use dynamo_parsers::error::ToolCallError;
use dynamo_parsers::families::{
    create_tool_parser_for_family, DelegatedFamily, FamilyParser, REGISTERED_FAMILIES,
};

#[test]
fn registered_families_all_create() {
    for family in REGISTERED_FAMILIES {
        create_tool_parser_for_family(family, &[]).unwrap_or_else(|e| {
            panic!("REGISTERED_FAMILIES entry '{family}' does not create: {}", e.message())
        });
    }
}

#[test]
fn unknown_family_is_named_in_the_error() {
    let error = match create_tool_parser_for_family("mistral", &[]) {
        Ok(_) => panic!("no such family"),
        Err(error) => error,
    };
    assert!(matches!(&error, ToolCallError::UnknownFamily(name) if name == "mistral"));
    assert_eq!(error.message(), "no Dynamo parser v2 for family 'mistral'");
}

#[test]
fn families_have_their_own_parsers() {
    for (name, expected) in [
        ("harmony", DelegatedFamily::Harmony),
        ("harmony_text", DelegatedFamily::Harmony),
        ("deepseek_v4", DelegatedFamily::DeepSeekV4),
        ("minimax_m2", DelegatedFamily::MiniMaxM2),
        ("minimax_m3", DelegatedFamily::MiniMaxM3),
        ("gemma4", DelegatedFamily::Gemma4),
        ("glm47", DelegatedFamily::Glm47),
    ] {
        let parser = create_tool_parser_for_family(name, &[]);
        assert!(matches!(parser, Ok(FamilyParser::Delegated(family)) if family == expected));
    }
    assert!(matches!(
        create_tool_parser_for_family("kimi_k2", &[]),
        Ok(FamilyParser::KimiK2(_))
    ));
    assert!(matches!(
        create_tool_parser_for_family("qwen3_coder", &[]),
        Ok(FamilyParser::Qwen3Coder(_))
    ));
}
