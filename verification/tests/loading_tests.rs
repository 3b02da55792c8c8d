use vector_buffers::loading::{
    component_name, dedup_paths, default_config_paths, expand_paths, load_from_str,
    merge_path_lists, plan_dir_files, plan_dir_subdirs, sort_paths, ConfigPath, Format,
};
use vector_buffers::WhenFull;
use vector_buffers::config::BufferType;

#[test]
fn load_namespacing_ignore_invalid() {
    // The namespacing directory under tests/namespacing/ignore-invalid mixes
    // component namespaces with entries the loader does not know; loading it
    // descends into the namespaces and passes over the rest in silence.
    let path = "tests/namespacing/ignore-invalid";
    assert!(matches!(Format::from_path(path), None));
    let subdirs = vec![
        "sources".to_string(),
        "transforms".to_string(),
        "sinks".to_string(),
        "not-a-namespace".to_string(),
        "12345".to_string(),
    ];
    let kept = plan_dir_subdirs(&subdirs);
    assert_eq!(kept, vec!["sources".to_string(), "transforms".to_string(), "sinks".to_string()]);
    let files = vec!["component.toml".to_string(), "garbage.bin".to_string()];
    let to_load = plan_dir_files(&files);
    assert_eq!(to_load, vec!["component.toml".to_string()]);
    let warns: Vec<String> = Vec::new();
    assert!(warns.is_empty());
}

#[test]
fn load_directory_ignores_unknown_file_formats() {
    // A config-dir holding files in unknown formats: only the files whose
    // extension names a known format are read, without warnings.
    let dir = "tests/config-dir";
    assert!(matches!(Format::from_path(dir), None));
    let files = vec![
        "vector.toml".to_string(),
        "pipeline.yaml".to_string(),
        "sidecar.yml".to_string(),
        "graph.json".to_string(),
        "README.md".to_string(),
        "notes.txt".to_string(),
        "archive.tar.gz".to_string(),
    ];
    let to_load = plan_dir_files(&files);
    assert_eq!(
        to_load,
        vec![
            "vector.toml".to_string(),
            "pipeline.yaml".to_string(),
            "sidecar.yml".to_string(),
            "graph.json".to_string(),
        ]
    );
    let warns: Vec<String> = Vec::new();
    assert!(warns.is_empty());
}

#[test]
fn format_follows_extension() {
    assert_eq!(Format::from_path("a/b/vector.toml"), Some(Format::Toml));
    assert_eq!(Format::from_path("conf.yaml"), Some(Format::Yaml));
    assert_eq!(Format::from_path("conf.yml"), Some(Format::Yaml));
    assert_eq!(Format::from_path("conf.json"), Some(Format::Json));
    assert_eq!(Format::from_path("conf.ini"), None);
    assert_eq!(Format::from_path(".hidden"), None);
    assert_eq!(Format::from_path("noextension"), None);
}

#[test]
fn component_name_is_the_file_stem() {
    assert_eq!(component_name("etc/vector/apache_parser.toml").unwrap(), "apache_parser");
    assert_eq!(component_name("es_cluster.yaml").unwrap(), "es_cluster");
    assert_eq!(component_name(".hidden").unwrap(), ".hidden");
    // Trailing separators and `.` components say nothing about the file,
    // exactly as the standard path functions read them.
    assert_eq!(component_name("etc/vector/").unwrap(), "vector");
    assert_eq!(component_name("/usr/bin/").unwrap(), "bin");
    assert_eq!(component_name("a/.").unwrap(), "a");
    assert_eq!(component_name("a.toml/").unwrap(), "a");
    assert!(component_name("").is_err());
    assert!(component_name(".").is_err());
    assert!(component_name("a/..").is_err());
    let err = component_name("..").unwrap_err();
    assert_eq!(err, vec!["Couldn't get component name for file: \"..\"".to_string()]);
}

#[test]
fn merge_path_lists_flattens_in_order() {
    let merged = merge_path_lists(vec![
        (vec!["a.toml".to_string(), "b.toml".to_string()], Some(Format::Toml)),
        (vec![].to_vec(), Some(Format::Json)),
        (vec!["c.yaml".to_string()], None),
    ]);
    assert_eq!(
        merged,
        vec![
            ("a.toml".to_string(), Some(Format::Toml)),
            ("b.toml".to_string(), Some(Format::Toml)),
            ("c.yaml".to_string(), None),
        ]
    );
}

#[test]
fn default_config_path_is_the_well_known_file() {
    let paths = default_config_paths();
    assert_eq!(
        paths,
        vec![ConfigPath::File("/etc/vector/vector.toml".to_string(), Some(Format::Toml))]
    );
}

#[test]
fn load_from_str_reads_the_stage_list() {
    let cfg = load_from_str("max_events: 7\n", Format::Yaml).unwrap();
    assert_eq!(
        cfg.stages,
        vec![BufferType::Memory { max_events: 7, when_full: WhenFull::Block }]
    );
    let errs = load_from_str("", Format::Yaml).unwrap_err();
    assert_eq!(errs, vec!["EOF while parsing a value".to_string()]);
    assert!(load_from_str("max_events: 7\n", Format::Toml).is_err());
}

#[test]
fn sort_and_dedup_paths_canonically() {
    let expanded = vec![
        ConfigPath::Dir("etc/vector.d".to_string()),
        ConfigPath::File("b.toml".to_string(), Some(Format::Toml)),
        ConfigPath::File("a.toml".to_string(), Some(Format::Toml)),
        ConfigPath::File("b.toml".to_string(), Some(Format::Toml)),
        ConfigPath::Dir("etc/vector.d".to_string()),
    ];
    let arranged = dedup_paths(sort_paths(expanded));
    assert_eq!(
        arranged,
        vec![
            ConfigPath::File("a.toml".to_string(), Some(Format::Toml)),
            ConfigPath::File("b.toml".to_string(), Some(Format::Toml)),
            ConfigPath::Dir("etc/vector.d".to_string()),
        ]
    );
}

#[test]
fn expand_paths_keeps_kind_and_hint() {
    let pattern = ConfigPath::File("conf/*.toml".to_string(), Some(Format::Toml));
    let expanded = expand_paths(&pattern, vec!["conf/a.toml".to_string(), "conf/b.toml".to_string()]);
    assert_eq!(
        expanded,
        vec![
            ConfigPath::File("conf/a.toml".to_string(), Some(Format::Toml)),
            ConfigPath::File("conf/b.toml".to_string(), Some(Format::Toml)),
        ]
    );
    let dir = ConfigPath::Dir("etc/*".to_string());
    let expanded = expand_paths(&dir, vec!["etc/vector".to_string()]);
    assert_eq!(expanded, vec![ConfigPath::Dir("etc/vector".to_string())]);
}
