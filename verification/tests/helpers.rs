use deltaimage::apply::sort_changes;
use deltaimage::cmdline::DockerFile;
use deltaimage::dockerfile::docker_file;
use deltaimage::manifest::Algo;
use deltaimage::mtimes::MtimeSaver;
use deltaimage::paths::{drop_components, parent_dir, path_join};

fn b(s: &str) -> Vec<u8> {
    s.as_bytes().to_vec()
}

#[test]
fn changes_sort_by_path() {
    let input = vec![
        (Algo::AsIs, b("b")),
        (Algo::XDelta3, b("a")),
        (Algo::XDelta3, b("ab")),
        (Algo::AsIs, b("a")),
    ];
    let sorted = sort_changes(input);
    let paths: Vec<Vec<u8>> = sorted.iter().map(|c| c.1.clone()).collect();
    assert_eq!(paths, vec![b("a"), b("a"), b("ab"), b("b")]);
    // entries with equal paths keep their relative order
    assert_eq!(sorted[0].0, Algo::XDelta3);
    assert_eq!(sorted[1].0, Algo::AsIs);
}

#[test]
fn drop_components_joins_the_rest() {
    let comps = vec![b("t"), b("x"), b("y")];
    assert_eq!(drop_components(1, &comps), b("x/y"));
    assert_eq!(drop_components(0, &comps), b("t/x/y"));
    assert_eq!(drop_components(3, &comps), b(""));
    assert_eq!(drop_components(9, &comps), b(""));
}

#[test]
fn parent_dir_cuts_at_last_separator() {
    assert_eq!(parent_dir(&b("a/b/c")), Some(b("a/b")));
    assert_eq!(parent_dir(&b("a")), None);
    assert_eq!(path_join(&b("/s"), &b("x/y")), b("/s/x/y"));
}

#[test]
fn first_recorded_mtime_wins() {
    let mut saver = MtimeSaver::new();
    saver.record(b("/t/d"), 100, 5);
    saver.record(b("/t/d"), 999, 9);
    saver.record(b("/t/e"), 200, 0);
    assert_eq!(saver.entries.len(), 2);
    assert_eq!(saver.entries[0].path, b("/t/d"));
    assert_eq!(saver.entries[0].secs, 100);
    assert_eq!(saver.entries[0].nanos, 5);
    assert_eq!(saver.entries[1].path, b("/t/e"));
    assert!(saver.contains_path(&b("/t/d")));
    assert!(!saver.contains_path(&b("/t/f")));
}

#[test]
fn diff_recipe_text() {
    let df = DockerFile::Diff {
        image_a: "img:a".to_string(),
        image_b: "img:b".to_string(),
        unlinked: false,
        override_version: None,
    };
    let out = docker_file(&df, &"9.9".to_string());
    let expected = "\n# Calculate delta under a temporary image\n\
FROM scratch AS delta\n\
COPY --from=img:a / /source/\n\
COPY --from=img:b / /delta/\n\
COPY --from=deltaimage/deltaimage:9.9 /opt/deltaimage /opt/deltaimage\n\
RUN [\"/opt/deltaimage\", \"diff\", \"/source\", \"/delta\"]\n\
\n\
# Make the deltaimage\n\
FROM img:a\n\
COPY --from=delta /delta /__deltaimage__.delta\n";
    assert_eq!(out, expected);
}

#[test]
fn apply_recipe_text_with_override() {
    let df = DockerFile::Apply {
        delta_image: "img:d".to_string(),
        unlinked_source: Some("img:s".to_string()),
        override_version: Some("2.0".to_string()),
    };
    let out = docker_file(&df, &"9.9".to_string());
    let expected = "\n# Apply a delta under a temporary image\n\
FROM img:d AS applied\n\
COPY --from=img:s / /\n\
COPY --from=deltaimage/deltaimage:2.0 /opt/deltaimage /opt/deltaimage\n\
USER root\n\
RUN [\"/opt/deltaimage\", \"apply\", \"/\", \"/__deltaimage__.delta\"]\n\
\n\
# Make the original image by applying the delta\n\
FROM scratch\n\
COPY --from=applied /__deltaimage__.delta/ /\n";
    assert_eq!(out, expected);
}
