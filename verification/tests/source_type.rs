use directive_memory::source_type::{infer, SourceType};

#[test]
fn prefix_rules() {
    assert_eq!(infer("note.md"), SourceType::Memory);
    assert_eq!(infer("vault/daily/2026-04-18.md"), SourceType::Vault);
    assert_eq!(infer("projects/foo.md"), SourceType::Project);
    assert_eq!(infer("contacts/holly.md"), SourceType::Contact);
}

#[test]
fn roundtrip_str() {
    for st in [SourceType::Memory, SourceType::Project, SourceType::Vault, SourceType::Contact] {
        assert_eq!(SourceType::from_str(st.as_str()), Some(st));
    }
    assert!(SourceType::from_str("bogus").is_none());
}

#[test]
fn prefix_must_be_a_whole_component() {
    assert_eq!(infer("vault"), SourceType::Memory);
    assert_eq!(infer("project/foo.md"), SourceType::Memory);
    assert_eq!(infer("contacts/"), SourceType::Contact);
    assert_eq!(SourceType::Project.as_str(), "project");
    assert!(SourceType::from_str("Memory").is_none());
}
