use rosbag2_storage_rrd::config::{
    format_representations, ConfigError, ConfigFile, FlushPolicy, RecordingConfig, Representation,
    Representations, Unmatched,
};
use serde_yaml_ng::Value;

fn reps(list: &[Representation]) -> Representations {
    Representations::from_list(list)
}

fn text(value: &Value) -> Result<String, String> {
    value.as_str().map(str::to_owned).ok_or_else(|| format!("not a text: {value:?}"))
}

fn number(value: &Value) -> Result<u64, String> {
    value.as_u64().ok_or_else(|| format!("not a number: {value:?}"))
}

fn representation(value: &Value) -> Result<Representation, String> {
    match text(value)?.as_str() {
        "raw" => Ok(Representation::Raw),
        "reflected" => Ok(Representation::Reflected),
        "lenses" => Ok(Representation::Lenses),
        other => Err(format!("unknown representation {other}")),
    }
}

fn empty_file() -> ConfigFile {
    ConfigFile {
        representations: None,
        unmatched: None,
        recording_id: None,
        server_uri: None,
        max_rows: None,
        max_bytes: None,
        max_latency_ms: None,
    }
}

/// Reads the YAML of a storage config file.
fn parse(yaml: &str) -> Result<ConfigFile, String> {
    let value: Value = serde_yaml_ng::from_str(yaml).map_err(|err| err.to_string())?;
    let mapping = value.as_mapping().ok_or("not a mapping")?;
    let mut file = empty_file();
    for (key, value) in mapping {
        match text(key)?.as_str() {
            "representations" => {
                let list = value.as_sequence().ok_or("not a list")?;
                file.representations =
                    Some(list.iter().map(representation).collect::<Result<_, _>>()?);
            }
            "unmatched" => {
                file.unmatched = Some(match text(value)?.as_str() {
                    "keep" => Unmatched::Keep,
                    "drop" => Unmatched::Drop,
                    other => return Err(format!("unknown choice {other}")),
                });
            }
            "recording_id" => file.recording_id = Some(text(value)?),
            "server_uri" => file.server_uri = Some(text(value)?),
            "max_rows" => file.max_rows = Some(number(value)? as usize),
            "max_bytes" => file.max_bytes = Some(number(value)? as usize),
            "max_latency_ms" => file.max_latency_ms = Some(number(value)?),
            other => return Err(format!("unknown field {other}")),
        }
    }
    Ok(file)
}

fn resolve(profile: &str, yaml: &str) -> Result<RecordingConfig, ConfigError> {
    RecordingConfig::resolve(profile, yaml, parse)
}

#[test]
fn every_profile_records_reflected() {
    for name in ["", "none", "low_latency", "ultra_low_latency", "high_throughput"] {
        let config = RecordingConfig::from_profile(name).unwrap();
        assert_eq!(config.representations, reps(&[Representation::Reflected]));
    }
    assert!(RecordingConfig::from_profile("not_a_profile").is_err());
}

#[test]
fn empty_config_file_changes_nothing() {
    let plain = RecordingConfig::from_profile("low_latency").unwrap();
    assert_eq!(resolve("low_latency", "").unwrap(), plain);
    assert_eq!(resolve("low_latency", "  \n").unwrap(), plain);
}

#[test]
fn config_file_overrides_each_key() {
    let config = resolve(
        "none",
        "representations: [lenses, raw]\nmax_rows: 7\nmax_bytes: 0\nmax_latency_ms: 0\n",
    )
    .unwrap();
    assert_eq!(
        config.representations,
        reps(&[Representation::Raw, Representation::Lenses])
    );
    assert_eq!(config.flush.max_rows, 7);
    assert_eq!(config.flush.max_bytes, 0);
    assert_eq!(config.flush.max_latency, None);

    let partial = resolve("none", "max_latency_ms: 50\n").unwrap();
    assert_eq!(partial.representations, reps(&[Representation::Reflected]));
    assert_eq!(partial.flush.max_rows, 64);
    assert_eq!(partial.flush.max_latency, Some(50_000_000));
    assert_eq!(partial.recording_id, None);

    let layer = resolve("none", "recording_id: abc-123\n").unwrap();
    assert_eq!(layer.recording_id.as_deref(), Some("abc-123"));

    let live = resolve("none", "server_uri: rerun+http://127.0.0.1:9876/proxy\n").unwrap();
    assert_eq!(
        live.server_uri.as_deref(),
        Some("rerun+http://127.0.0.1:9876/proxy")
    );
    assert_eq!(partial.server_uri, None);
}

#[test]
fn config_file_mistakes_are_errors() {
    assert!(resolve("none", "representations: []\n").is_err());
    assert!(resolve("none", "representations: [blobs]\n").is_err());
    assert!(resolve("none", "recording_id: ''\n").is_err());
    assert!(resolve("none", "server_uri: ''\n").is_err());
    assert!(resolve("none", "server_uri: localhost:9876\n").is_err());
    assert!(resolve("none", "server_uri: rerun+http://127.0.0.1:9876\n").is_err());
    assert!(resolve("none", "maxRows: 3\n").is_err());
    assert!(resolve("none", "not: [valid\n").is_err());
}

#[test]
fn representations_format_in_ladder_order() {
    let all = reps(&[
        Representation::Lenses,
        Representation::Raw,
        Representation::Reflected,
    ]);
    assert_eq!(format_representations(&all), "raw,reflected,lenses");
}

#[test]
fn fewer_representations_format_without_a_stray_comma() {
    assert_eq!(format_representations(&reps(&[])), "");
    assert_eq!(format_representations(&reps(&[Representation::Lenses])), "lenses");
    assert_eq!(
        format_representations(&reps(&[Representation::Lenses, Representation::Raw])),
        "raw,lenses"
    );
    assert_eq!(Representation::Reflected.name(), "reflected");
}

#[test]
fn a_set_of_representations_holds_what_was_put_in_it() {
    let mut set = Representations::new();
    assert!(set.is_empty());
    set.insert(Representation::Lenses);
    set.insert(Representation::Lenses);
    assert!(!set.is_empty());
    assert!(set.contains(&Representation::Lenses));
    assert!(!set.contains(&Representation::Raw));
    assert_eq!(set, reps(&[Representation::Lenses, Representation::Lenses]));
}

#[test]
fn each_profile_has_its_own_flush_policy() {
    let mib = 1024 * 1024;
    let flush = |name| RecordingConfig::from_profile(name).unwrap().flush;
    assert_eq!(
        flush("none"),
        FlushPolicy { max_rows: 64, max_bytes: 8 * mib, max_latency: Some(200_000_000) }
    );
    assert_eq!(flush(""), flush("none"));
    assert_eq!(
        flush("low_latency"),
        FlushPolicy { max_rows: 0, max_bytes: 8 * mib, max_latency: Some(1_000_000_000 / 30) }
    );
    assert_eq!(
        flush("ultra_low_latency"),
        FlushPolicy { max_rows: 0, max_bytes: 8 * mib, max_latency: Some(1_000_000_000 / 60) }
    );
    assert_eq!(
        flush("high_throughput"),
        FlushPolicy { max_rows: 1024, max_bytes: 8 * mib, max_latency: None }
    );
}

#[test]
fn each_mistake_is_told_apart() {
    let refused = |yaml| resolve("none", yaml).unwrap_err();
    assert!(matches!(
        resolve("fast", ""),
        Err(ConfigError::UnknownProfile { name }) if name == "fast"
    ));
    assert!(matches!(refused("not: [valid\n"), ConfigError::Unparsable { .. }));
    assert_eq!(refused("representations: []\n"), ConfigError::NoRepresentations);
    assert_eq!(
        refused("unmatched: drop\n"),
        ConfigError::DropContradiction { got: reps(&[Representation::Reflected]) }
    );
    assert_eq!(refused("recording_id: '  '\n"), ConfigError::EmptyRecordingId);
    assert_eq!(
        refused("server_uri: localhost:9876\n"),
        ConfigError::BadServerUri { uri: "localhost:9876".to_owned() }
    );
}

#[test]
fn mistakes_are_explained() {
    assert_eq!(
        resolve("fast", "").unwrap_err().message(),
        "unknown storage preset profile 'fast', expected one of: none, low_latency, \
         ultra_low_latency, high_throughput"
    );
    assert_eq!(
        resolve("none", "representations: [lenses, reflected]\nunmatched: drop\n")
            .unwrap_err()
            .message(),
        "'unmatched: drop' keeps only what the lenses derive, so it needs representations to \
         include 'lenses' and not 'reflected'; got [reflected,lenses]"
    );
    assert_eq!(
        resolve("none", "recording_id: ''\n").unwrap_err().message(),
        "the storage config file sets an empty recording_id"
    );
    assert_eq!(
        resolve("none", "server_uri: x\n").unwrap_err().message(),
        "the storage config file's server_uri 'x' is not a Rerun proxy URL like \
         rerun+http://127.0.0.1:9876/proxy"
    );
}

#[test]
fn dropping_the_unmatched_goes_with_lenses_alone() {
    let layer = resolve("none", "representations: [lenses]\nunmatched: drop\n").unwrap();
    assert_eq!(layer.unmatched, Unmatched::Drop);
    let with_raw = resolve("none", "representations: [raw, lenses]\nunmatched: drop\n").unwrap();
    assert_eq!(
        with_raw.representations,
        reps(&[Representation::Raw, Representation::Lenses])
    );
    assert!(resolve("none", "representations: [raw]\nunmatched: drop\n").is_err());
}

#[test]
fn a_server_is_named_by_its_canonical_url() {
    let file = ConfigFile {
        server_uri: Some("rerun+http://127.0.0.1:9876/proxy".to_owned()),
        ..empty_file()
    };
    let plain = RecordingConfig::from_profile("none").unwrap();
    let applied = file.clone().apply(plain.clone()).unwrap();
    assert_eq!(
        applied.server_uri.as_deref(),
        Some("rerun+http://127.0.0.1:9876/proxy")
    );
    // What the URL is read as is what is kept, not what was written.
    let given = file.apply_with(Some("elsewhere".to_owned()), plain).unwrap();
    assert_eq!(given.server_uri.as_deref(), Some("elsewhere"));

    let bare = ConfigFile { server_uri: Some("rerun://host/proxy".to_owned()), ..empty_file() };
    let plain = RecordingConfig::from_profile("none").unwrap();
    let port = bare.apply(plain).unwrap().server_uri.unwrap();
    assert_ne!(port, "rerun://host/proxy");
    assert!(port.ends_with("/proxy"), "{port}");
}
