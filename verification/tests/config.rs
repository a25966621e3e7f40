use download_stats::config::{CollectionSource, Config};

fn config_from_table(table: &toml::Table) -> Config {
    let mut source = Vec::new();
    if let Some(entries) = table.get("source") {
        for entry in entries.as_array().unwrap() {
            let entry = entry.as_table().unwrap();
            let text = |key: &str| entry.get(key).unwrap().as_str().unwrap().to_string();
            match entry.get("kind").unwrap().as_str().unwrap() {
                "github" => {
                    source.push(CollectionSource::Github { owner: text("owner"), repo: text("repo") })
                }
                "crates" => source.push(CollectionSource::Crates { name: text("name") }),
                other => panic!("unknown kind {}", other),
            }
        }
    }
    Config { source }
}

fn table_from_config(config: &Config) -> toml::Table {
    let mut entries = Vec::new();
    for source in &config.source {
        let mut entry = toml::Table::new();
        match source {
            CollectionSource::Github { owner, repo } => {
                entry.insert("kind".to_string(), toml::Value::String("github".to_string()));
                entry.insert("owner".to_string(), toml::Value::String(owner.clone()));
                entry.insert("repo".to_string(), toml::Value::String(repo.clone()));
            }
            CollectionSource::Crates { name } => {
                entry.insert("kind".to_string(), toml::Value::String("crates".to_string()));
                entry.insert("name".to_string(), toml::Value::String(name.clone()));
            }
        }
        entries.push(toml::Value::Table(entry));
    }
    let mut table = toml::Table::new();
    table.insert("source".to_string(), toml::Value::Array(entries));
    table
}

#[test]
fn test_config_roundtrip() {
    let config = Config::default();
    let toml = toml::to_string_pretty(&table_from_config(&config)).unwrap();
    let parsed: Config = config_from_table(&toml.parse::<toml::Table>().unwrap());

    assert_eq!(config.source.len(), parsed.source.len());
}

#[test]
fn test_parse_config() {
    let toml = r#"
[[source]]
kind = "github"
owner = "nextest-rs"
repo = "nextest"

[[source]]
kind = "crates"
name = "cargo-nextest"
        "#;

    let config: Config = config_from_table(&toml.parse::<toml::Table>().unwrap());
    assert_eq!(config.source.len(), 2);

    let github: Vec<_> = config.github_sources();
    assert_eq!(github.len(), 1);
    assert_eq!(github[0], ("nextest-rs", "nextest"));

    let crates: Vec<_> = config.crates_sources();
    assert_eq!(crates.len(), 1);
    assert_eq!(crates[0], "cargo-nextest");
}

#[test]
fn default_config_names_one_repository_and_one_package() {
    let config = Config::default();
    assert_eq!(config.github_sources(), vec![("nextest-rs", "nextest")]);
    assert_eq!(config.crates_sources(), vec!["cargo-nextest"]);
}

#[test]
fn sources_keep_their_order_and_kind() {
    let config = Config {
        source: vec![
            CollectionSource::Crates { name: "a".to_string() },
            CollectionSource::Github { owner: "o1".to_string(), repo: "r1".to_string() },
            CollectionSource::Crates { name: "b".to_string() },
            CollectionSource::Github { owner: "o2".to_string(), repo: "r2".to_string() },
            CollectionSource::Crates { name: "a".to_string() },
        ],
    };
    assert_eq!(config.github_sources(), vec![("o1", "r1"), ("o2", "r2")]);
    assert_eq!(config.crates_sources(), vec!["a", "b", "a"]);
    let empty = Config { source: Vec::new() };
    assert!(empty.github_sources().is_empty());
    assert!(empty.crates_sources().is_empty());
}
