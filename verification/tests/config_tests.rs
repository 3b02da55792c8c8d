use vector_buffers::WhenFull;
use vector_buffers::config::{BufferConfig, BufferType};
use vector_buffers::config_text::{parse_buffer_config, serialize_buffer_config};

fn check_single_stage(source: &str, expected: BufferType) {
    let config = parse_buffer_config(source).unwrap();
    assert_eq!(config.stages.len(), 1);
    let actual = config.stages.first().unwrap();
    assert_eq!(actual, &expected);
}

fn check_multiple_stages(source: &str, expected_stages: &[BufferType]) {
    let config = parse_buffer_config(source).unwrap();
    assert_eq!(config.stages.len(), expected_stages.len());
    for (actual, expected) in config.stages().iter().zip(expected_stages) {
        assert_eq!(actual, expected);
    }
}

#[test]
fn parse_empty() {
    let source = "";
    let error = parse_buffer_config(source).unwrap_err();
    assert_eq!(error.message(), "EOF while parsing a value");
}

#[test]
fn parse_only_invalid_keys() {
    let source = "foo: 314";
    let error = parse_buffer_config(source).unwrap_err();
    assert_eq!(
        error.message(),
        "unknown field `foo`, expected one of `type`, `max_events`, `max_size`, `when_full` at line 1 column 4"
    );
}

#[test]
fn parse_partial_invalid_keys() {
    let source = r#"max_size: 100
max_events: 42
"#;
    let error = parse_buffer_config(source).unwrap_err();
    assert_eq!(
        error.message(),
        "unknown field `max_size`, expected one of `type`, `max_events`, `when_full` at line 1 column 9"
    );
}

#[test]
fn parse_without_type_tag() {
    check_single_stage(
        r#"
          max_events: 100
          "#,
        BufferType::Memory {
            max_events: 100,
            when_full: WhenFull::Block,
        },
    );
}

#[test]
fn parse_multiple_stages() {
    check_multiple_stages(
        r#"
          - max_events: 42
          - max_events: 100
            when_full: drop_newest
          "#,
        &[
            BufferType::Memory {
                max_events: 42,
                when_full: WhenFull::Block,
            },
            BufferType::Memory {
                max_events: 100,
                when_full: WhenFull::DropNewest,
            },
        ],
    );
}

#[test]
fn ensure_field_defaults_for_all_types() {
    check_single_stage(
        r#"
          type: disk_v1
          max_size: 1024
          "#,
        BufferType::DiskV1 {
            max_size: 1024,
            when_full: WhenFull::Block,
        },
    );

    check_single_stage(
        r#"
          type: memory
          "#,
        BufferType::Memory {
            max_events: 500,
            when_full: WhenFull::Block,
        },
    );

    check_single_stage(
        r#"
          type: memory
          max_events: 100
          "#,
        BufferType::Memory {
            max_events: 100,
            when_full: WhenFull::Block,
        },
    );

    check_single_stage(
        r#"
          type: memory
          when_full: drop_newest
          "#,
        BufferType::Memory {
            max_events: 500,
            when_full: WhenFull::DropNewest,
        },
    );

    check_single_stage(
        r#"
          type: memory
          when_full: overflow
          "#,
        BufferType::Memory {
            max_events: 500,
            when_full: WhenFull::Overflow,
        },
    );

    check_single_stage(
        r#"
          type: disk
          max_size: 1024
          "#,
        BufferType::DiskV2 {
            max_size: 1024,
            when_full: WhenFull::Block,
        },
    );
}

#[test]
fn parse_duplicate_field_rejected() {
    let source = "max_events: 10\nmax_events: 20\n";
    let error = parse_buffer_config(source).unwrap_err();
    assert_eq!(error.message(), "duplicate field `max_events` at line 2 column 11");
}

#[test]
fn parse_missing_max_size_rejected() {
    let source = "type: disk\n";
    let error = parse_buffer_config(source).unwrap_err();
    assert_eq!(error.message(), "missing field `max_size`");
}

#[test]
fn parse_zero_max_events_rejected() {
    let source = "max_events: 0\n";
    let error = parse_buffer_config(source).unwrap_err();
    assert_eq!(error.message(), "invalid value for field `max_events` at line 1 column 11");
}

#[test]
fn parse_unknown_when_full_rejected() {
    let source = "when_full: explode\n";
    let error = parse_buffer_config(source).unwrap_err();
    assert_eq!(error.message(), "unknown variant for field `when_full` at line 1 column 10");
}

#[test]
fn parse_line_without_separator_rejected() {
    let source = "just some text\n";
    let error = parse_buffer_config(source).unwrap_err();
    assert_eq!(error.message(), "invalid line at line 1 column 1");
}

#[test]
fn buffer_config_default_is_one_memory_stage() {
    let config = vector_buffers::config::BufferConfig::default();
    assert_eq!(
        config.stages,
        vec![BufferType::Memory { max_events: 500, when_full: WhenFull::Block }]
    );
}

#[test]
fn serialize_single_stage_as_bare_object() {
    let cfg = BufferConfig {
        stages: vec![BufferType::Memory { max_events: 100, when_full: WhenFull::Block }],
    };
    let text = serialize_buffer_config(&cfg).unwrap();
    assert_eq!(text, "type: memory\nmax_events: 100\nwhen_full: block\n");
}

#[test]
fn serialize_multiple_stages_as_list() {
    let cfg = BufferConfig {
        stages: vec![
            BufferType::DiskV2 { max_size: 1024, when_full: WhenFull::Overflow },
            BufferType::Memory { max_events: 42, when_full: WhenFull::DropNewest },
        ],
    };
    let text = serialize_buffer_config(&cfg).unwrap();
    assert_eq!(
        text,
        "- type: disk\n  max_size: 1024\n  when_full: overflow\n- type: memory\n  max_events: 42\n  when_full: drop_newest\n"
    );
}

#[test]
fn serialize_empty_config_is_an_error() {
    let err = serialize_buffer_config(&BufferConfig { stages: vec![] }).unwrap_err();
    assert_eq!(err.message(), "buffer config cannot be empty when serializing");
}

#[test]
fn serialize_then_parse_round_trips() {
    let cfg = BufferConfig {
        stages: vec![
            BufferType::Memory { max_events: 1, when_full: WhenFull::Overflow },
            BufferType::DiskV1 { max_size: 9000, when_full: WhenFull::Block },
        ],
    };
    let text = serialize_buffer_config(&cfg).unwrap();
    let reparsed = parse_buffer_config(&text).unwrap();
    assert_eq!(reparsed, cfg);
}
