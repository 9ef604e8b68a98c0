use realgeopolitics::industry::{
    is_yaml_file, resolve_sector_token, DependencyKind, IndustryCatalog, IndustryCategory,
    IndustryError, Reporter, SectorId, SectorRegistry,
};

#[derive(Debug, Clone)]
struct SectorDefinition {
    key: String,
    name: String,
    base_output: f64,
    base_cost: f64,
}

fn definition(key: &str, name: &str, base_output: f64, base_cost: f64) -> SectorDefinition {
    SectorDefinition {
        key: key.to_string(),
        name: name.to_string(),
        base_output,
        base_cost,
    }
}

fn insert(
    catalog: &mut IndustryCatalog<SectorDefinition>,
    category: IndustryCategory,
    def: SectorDefinition,
) -> Result<(), IndustryError<String>> {
    let id = SectorId::new(category, &def.key);
    catalog.insert_sector(id, def)
}

fn catalog_with_samples() -> IndustryCatalog<SectorDefinition> {
    let mut catalog = IndustryCatalog::default();
    insert(
        &mut catalog,
        IndustryCategory::Primary,
        definition("grain", "穀物", 100.0, 50.0),
    )
    .expect("insert grain");
    insert(
        &mut catalog,
        IndustryCategory::Secondary,
        definition("automotive", "自動車", 160.0, 120.0),
    )
    .expect("insert automotive");
    insert(
        &mut catalog,
        IndustryCategory::Tertiary,
        definition("automotive", "自動車サービス", 90.0, 70.0),
    )
    .expect("insert automotive tertiary");
    catalog
}

#[test]
fn push_ignores_blank_entries() {
    let mut reporter = Reporter::new();
    reporter.push("");
    reporter.push("   ");
    reporter.push("message");
    assert_eq!(reporter.into_reports(), vec!["message".to_string()]);
}

#[test]
fn reporter_keeps_order_and_inner_spaces() {
    let mut reporter = Reporter::default();
    reporter.push(" first ");
    reporter.push("\t\n");
    reporter.push("second");
    assert_eq!(
        reporter.into_reports(),
        vec![" first ".to_string(), "second".to_string()]
    );
}

#[test]
fn resolve_category_key_pair() {
    let catalog = catalog_with_samples();
    let registry = SectorRegistry::from_catalog(&catalog);
    let sector = registry.resolve("primary:grain").expect("resolve grain");
    assert_eq!(sector.category, IndustryCategory::Primary);
    assert_eq!(sector.key, "grain");
}

#[test]
fn resolve_unique_key_without_category() {
    let mut catalog = catalog_with_samples();
    insert(
        &mut catalog,
        IndustryCategory::Energy,
        definition("electricity", "電力", 200.0, 80.0),
    )
    .expect("insert electricity");
    let registry = SectorRegistry::from_catalog(&catalog);
    let sector = registry
        .resolve("electricity")
        .expect("resolve electricity");
    assert_eq!(sector.category, IndustryCategory::Energy);
}

#[test]
fn resolve_requires_category_when_duplicate_keys_exist() {
    let catalog = catalog_with_samples();
    let registry = SectorRegistry::from_catalog(&catalog);
    let err = registry.resolve("automotive").expect_err("ambiguous");
    assert!(err.message().contains("セクター名が複数カテゴリに存在します"));
}

#[test]
fn industry_catalog_rejects_duplicates() {
    let mut catalog = IndustryCatalog::default();
    insert(
        &mut catalog,
        IndustryCategory::Primary,
        definition("wheat", "小麦", 100.0, 40.0),
    )
    .expect("初回登録");
    let result = insert(
        &mut catalog,
        IndustryCategory::Primary,
        definition("wheat", "小麦", 120.0, 45.0),
    );
    assert!(result.is_err());
}

#[test]
fn catalog_catalog_rejects_duplicates() {
    let mut catalog = IndustryCatalog::default();
    insert(
        &mut catalog,
        IndustryCategory::Primary,
        definition("wheat", "小麦", 100.0, 40.0),
    )
    .expect("初回登録");
    let result = insert(
        &mut catalog,
        IndustryCategory::Primary,
        definition("wheat", "小麦", 120.0, 45.0),
    );
    match result {
        Err(IndustryError::DuplicateSector { key, category }) => {
            assert_eq!(key, "wheat");
            assert_eq!(category, IndustryCategory::Primary);
        }
        other => panic!("unexpected result: {:?}", other),
    }
    assert_eq!(catalog.sectors().len(), 1);
    assert_eq!(catalog.sectors()[0].1.base_output, 100.0);
}

#[test]
fn catalog_keeps_same_key_in_other_category() {
    let mut catalog = IndustryCatalog::default();
    insert(&mut catalog, IndustryCategory::Primary, definition("wheat", "小麦", 1.0, 1.0)).unwrap();
    insert(&mut catalog, IndustryCategory::Secondary, definition("wheat", "製粉", 2.0, 2.0)).unwrap();
    assert_eq!(catalog.sectors().len(), 2);
    let secondary = catalog
        .get(&SectorId::new(IndustryCategory::Secondary, "wheat"))
        .expect("secondary wheat");
    assert_eq!(secondary.name, "製粉");
    assert!(catalog
        .get(&SectorId::new(IndustryCategory::Energy, "wheat"))
        .is_none());
    let primary_ids = catalog.sectors_by_category(IndustryCategory::Primary);
    assert_eq!(primary_ids.len(), 1);
    assert_eq!(primary_ids[0].key, "wheat");
}

#[test]
fn category_parsing_accepts_names_numbers_and_japanese() {
    assert_eq!(IndustryCategory::from_str("  PRIMARY ").unwrap(), IndustryCategory::Primary);
    assert_eq!(IndustryCategory::from_str("2").unwrap(), IndustryCategory::Secondary);
    assert_eq!(IndustryCategory::from_str("三次").unwrap(), IndustryCategory::Tertiary);
    assert_eq!(IndustryCategory::from_str("エネルギー").unwrap(), IndustryCategory::Energy);
    match IndustryCategory::from_str(" Fifth ") {
        Err(IndustryError::UnknownCategory(t)) => assert_eq!(t, "fifth"),
        other => panic!("unexpected: {:?}", other),
    }
    let err = IndustryCategory::from_str("x").unwrap_err();
    assert!(err.message().contains("未知の産業カテゴリです: x"));
}

#[test]
fn category_names_round_trip() {
    let all = IndustryCategory::iter();
    assert_eq!(all.len(), 4);
    for category in all {
        assert_eq!(IndustryCategory::from_str(category.as_str()).unwrap(), category);
    }
    assert_eq!(IndustryCategory::Energy.as_str(), "energy");
}

#[test]
fn registry_errors_for_each_kind_of_token() {
    let catalog = catalog_with_samples();
    let registry = SectorRegistry::from_catalog(&catalog);
    assert!(matches!(registry.resolve("   "), Err(IndustryError::EmptySectorToken)));
    assert!(matches!(registry.resolve("primary: "), Err(IndustryError::EmptySectorKey)));
    match registry.resolve("primary:steel") {
        Err(IndustryError::SectorNotInCategory(t)) => assert_eq!(t, "primary:steel"),
        other => panic!("unexpected: {:?}", other),
    }
    match registry.resolve("steel") {
        Err(IndustryError::SectorNotFound(t)) => assert_eq!(t, "steel"),
        other => panic!("unexpected: {:?}", other),
    }
    assert!(matches!(
        registry.resolve("mining/grain"),
        Err(IndustryError::UnknownCategory(_))
    ));
    let tertiary = registry.resolve(" 3 / Automotive ").expect("tertiary automotive");
    assert_eq!(tertiary.category, IndustryCategory::Tertiary);
    assert_eq!(tertiary.key, "automotive");
    let grain = registry.resolve("GRAIN").expect("grain by key");
    assert_eq!(grain.key, "grain");
    assert_eq!(registry.iter().len(), 3);
}

#[test]
fn catalog_token_resolution_keeps_typed_key() {
    let catalog = catalog_with_samples();
    let id = resolve_sector_token(&catalog, "secondary:automotive").unwrap();
    assert_eq!(id.category, IndustryCategory::Secondary);
    assert_eq!(id.key, "automotive");
    assert!(matches!(
        resolve_sector_token(&catalog, "secondary:Automotive"),
        Err(IndustryError::SectorNotInCategory(_))
    ));
    assert!(matches!(
        resolve_sector_token(&catalog, "automotive"),
        Err(IndustryError::AmbiguousSector(_))
    ));
    assert_eq!(resolve_sector_token(&catalog, "Grain").unwrap().key, "grain");
}

#[test]
fn yaml_files_are_recognised_by_extension() {
    assert!(is_yaml_file("config/industries/primary.yaml"));
    assert!(is_yaml_file("secondary.yml"));
    assert!(!is_yaml_file("config/countries.json"));
    assert!(!is_yaml_file("config/.yaml"));
    assert!(!is_yaml_file("yaml"));
    assert!(!is_yaml_file("dir.yaml/file"));
    assert!(is_yaml_file("config/primary.yaml/"));
    assert!(is_yaml_file("config/primary.yml/."));
    assert!(is_yaml_file("config//primary.yaml"));
    assert!(!is_yaml_file("primary.yaml/.."));
    assert!(!is_yaml_file("/"));
    assert!(!is_yaml_file("./"));
}

#[test]
fn dependency_kind_defaults_to_input() {
    assert_eq!(DependencyKind::default(), DependencyKind::Input);
}

#[test]
fn sector_ids_copy_key_and_category() {
    let id = SectorId::new(IndustryCategory::Energy, "electricity");
    let copy = id.duplicate();
    assert_eq!(copy, id);
    let dep = realgeopolitics::industry::resolve_dependency_sector("steel", None, IndustryCategory::Secondary);
    assert_eq!(dep, SectorId::new(IndustryCategory::Secondary, "steel"));
    let dep = realgeopolitics::industry::resolve_dependency_sector(
        "electricity",
        Some(IndustryCategory::Energy),
        IndustryCategory::Secondary,
    );
    assert_eq!(dep.category, IndustryCategory::Energy);
}

#[test]
fn qualified_lookup_prefers_the_key_first_in_dictionary_order() {
    let mut catalog = IndustryCatalog::default();
    insert(
        &mut catalog,
        IndustryCategory::Primary,
        definition("grain", "穀物", 100.0, 50.0),
    )
    .expect("insert grain");
    insert(
        &mut catalog,
        IndustryCategory::Primary,
        definition("Grain", "穀物 (大)", 120.0, 60.0),
    )
    .expect("insert Grain");
    let registry = SectorRegistry::from_catalog(&catalog);
    let sector = registry.resolve("primary:GRAIN").expect("resolve GRAIN");
    assert_eq!(sector.category, IndustryCategory::Primary);
    assert_eq!(sector.key, "Grain");
    assert!(matches!(
        registry.resolve("grain"),
        Err(IndustryError::AmbiguousSector(_))
    ));
}
