use thinkaroo::prompts::{get_prompt, list_prompt_names, prompts};

#[test]
fn test_prompts_load() {
    let prompts = prompts();
    assert!(!prompts.is_empty(), "Should load at least one prompt");
}

#[test]
fn test_get_prompt() {
    // This will only pass if the example prompts exist
    if let Some(prompt) = get_prompt("reading_comprehension") {
        assert_eq!(prompt.name, "reading_comprehension");
        assert!(!prompt.prompt.text.is_empty());
    }
}

#[test]
fn test_list_prompt_names() {
    let names = list_prompt_names();
    assert!(!names.is_empty(), "Should have at least one prompt name");
}

#[test]
fn get_prompt_unknown_name_is_none() {
    assert!(get_prompt("arithmetic_drill").is_none());
    assert!(get_prompt("").is_none());
    assert!(get_prompt("reading_comprehensio").is_none());
}

#[test]
fn get_prompt_returns_the_registered_config() {
    let prompt = get_prompt("reading_comprehension").expect("built-in prompt must resolve");
    assert_eq!(prompt.name, "reading_comprehension");
    assert_eq!(prompt.model, "gpt-4o-mini");
    assert!(!prompt.description.is_empty());
    assert!(!prompt.system_context.is_empty());
}

#[test]
fn list_prompt_names_matches_registry() {
    let names = list_prompt_names();
    assert_eq!(names, vec!["reading_comprehension".to_string()]);
    let all = prompts();
    assert_eq!(all.len(), names.len());
    assert_eq!(all[0].name, names[0]);
}
