use deltaimage::apply::ApplyEngine;
use deltaimage::codec::reconstruct_content;
use deltaimage::diff::{DiffEngine, FileAction};
use deltaimage::manifest::Algo;

fn b(s: &str) -> Vec<u8> {
    s.as_bytes().to_vec()
}

#[test]
fn modified_file_becomes_patch_and_restores() {
    // S = {a: "hello"}, T = {a: "hello world"}; the codec encodes and the
    // round-trip check agrees, so the file ships as a patch.
    let mut eng = DiffEngine::new(b("1.0"), b("/s"), b("/t"));
    eng.add_source_file(b("a"));
    assert!(eng.matches_source(&b("a")));
    let r = eng
        .decide(
            &b("a"),
            &b("hello"),
            &b("hello world"),
            Some(b("P")),
            Some(b("hello world")),
        )
        .unwrap();
    match r {
        FileAction::Rewrite { content } => assert_eq!(content, b("P")),
        _ => panic!("expected a rewrite"),
    }
    let md = eng.into_manifest();
    assert_eq!(md.changes, vec![(Algo::XDelta3, b("a"))]);
    assert!(md.keep_files.is_empty());
    // apply decodes the shipped patch against the source and restores the
    // target bytes
    let restored =
        reconstruct_content(Algo::XDelta3, b("P"), Some(b("hello world")), &b("/s/a"), &b("/t/a"))
            .unwrap();
    assert_eq!(restored, b("hello world"));
}

#[test]
fn unmodified_file_becomes_empty_marker() {
    // S = {a: "x"}, T = {a: "x"}: a zero-byte marker, recorded in keep_files.
    let mut eng = DiffEngine::new(b("1.0"), b("/s"), b("/t"));
    eng.add_source_file(b("a"));
    let r = eng.decide(&b("a"), &b("x"), &b("x"), None, None).unwrap();
    match r {
        FileAction::Rewrite { content } => assert!(content.is_empty()),
        _ => panic!("expected a rewrite"),
    }
    let md = eng.into_manifest();
    assert_eq!(md.keep_files, vec![b("a")]);
    assert!(md.changes.is_empty());
}

#[test]
fn target_only_file_is_left_untouched() {
    // S = {}, T = {b: "new"}: the path matches no source file, so the
    // caller leaves it alone and the manifest lists nothing.
    let eng = DiffEngine::new(b("1.0"), b("/s"), b("/t"));
    assert!(!eng.matches_source(&b("b")));
    let md = eng.into_manifest();
    assert!(md.keep_files.is_empty());
    assert!(md.changes.is_empty());
}

#[test]
fn encode_failure_falls_back_to_as_is() {
    // The codec fails to encode: the new bytes ship verbatim as AsIs.
    let mut eng = DiffEngine::new(b("1.0"), b("/s"), b("/t"));
    eng.add_source_file(b("a"));
    let r = eng.decide(&b("a"), &b("old-big"), &b("new-big"), None, None).unwrap();
    match r {
        FileAction::Rewrite { content } => assert_eq!(content, b("new-big")),
        _ => panic!("expected a rewrite"),
    }
    let md = eng.into_manifest();
    assert_eq!(md.changes, vec![(Algo::AsIs, b("a"))]);
    assert!(md.keep_files.is_empty());
    // apply hands the verbatim bytes back
    let restored = reconstruct_content(Algo::AsIs, b("new-big"), None, &b("/s/a"), &b("/t/a"))
        .unwrap();
    assert_eq!(restored, b("new-big"));
}

#[test]
fn round_trip_decode_failure_falls_back_to_as_is() {
    let mut eng = DiffEngine::new(b("1.0"), b("/s"), b("/t"));
    eng.add_source_file(b("a"));
    let r = eng.decide(&b("a"), &b("old"), &b("new"), Some(b("P")), None).unwrap();
    match r {
        FileAction::Rewrite { content } => assert_eq!(content, b("new")),
        _ => panic!("expected a rewrite"),
    }
    let md = eng.into_manifest();
    assert_eq!(md.changes, vec![(Algo::AsIs, b("a"))]);
}

#[test]
fn wrong_round_trip_bytes_are_fatal() {
    // The codec decoded the fresh patch to wrong bytes: the diff must fail
    // rather than ship a corrupted delta.
    let mut eng = DiffEngine::new(b("1.0"), b("/s"), b("/t"));
    eng.add_source_file(b("a"));
    let r = eng.decide(&b("a"), &b("old"), &b("new"), Some(b("P")), Some(b("wrong")));
    match r {
        Err(deltaimage::errors::Error::XDelta3FailedValidation(sp, tp)) => {
            assert_eq!(sp, b("/s/a"));
            assert_eq!(tp, b("/t/a"));
        },
        _ => panic!("expected a validation error"),
    }
    // nothing was recorded for the failed file
    let md = eng.into_manifest();
    assert!(md.changes.is_empty());
    assert!(md.keep_files.is_empty());
}

#[test]
fn corrupt_delta_is_fatal_on_apply() {
    let r = reconstruct_content(Algo::XDelta3, b("patch"), None, &b("/s/a"), &b("/d/a"));
    match r {
        Err(deltaimage::errors::Error::XDelta3FailedDeflation(sp, dp)) => {
            assert_eq!(sp, b("/s/a"));
            assert_eq!(dp, b("/d/a"));
        },
        _ => panic!("expected a deflation error"),
    }
}

#[test]
fn hardlinked_pair_ships_one_file_and_relinks() {
    // T holds x and y hardlinked to one inode with content C; S holds both
    // with content C0. Only the first-seen path ships; the other becomes a
    // hard link to it.
    let mut eng = DiffEngine::new(b("1.0"), b("/s"), b("/t"));
    eng.add_source_file(b("x"));
    eng.add_source_file(b("y"));
    eng.note_target_link(b("x"), 7, 1, 2);
    eng.note_target_link(b("y"), 7, 1, 2);
    let r1 = eng.decide(&b("x"), &b("C0"), &b("C"), Some(b("P")), Some(b("C"))).unwrap();
    match r1 {
        FileAction::Rewrite { content } => assert_eq!(content, b("P")),
        _ => panic!("expected a rewrite for the first group member"),
    }
    let r2 = eng.decide(&b("y"), &b("C0"), &b("C"), Some(b("P")), Some(b("C"))).unwrap();
    match r2 {
        FileAction::HardLink { rep } => assert_eq!(rep, b("x")),
        _ => panic!("expected a hard link for the second group member"),
    }
    let md = eng.into_manifest();
    assert_eq!(md.changes, vec![(Algo::XDelta3, b("x"))]);
    assert!(md.keep_files.is_empty());

    // apply: both paths belong to one group; x is reconstructed, so y is
    // re-created as a hard link to x
    let mut app = ApplyEngine::new();
    app.note_delta_link(b("x"), 9, 1, 2);
    app.note_delta_link(b("y"), 9, 1, 2);
    app.mark_recreated(b("x"));
    let plan = app.plan_links();
    assert_eq!(plan, vec![(b("x"), b("y"))]);
}

#[test]
fn group_without_recreated_member_keeps_its_links() {
    let mut app = ApplyEngine::new();
    app.note_delta_link(b("x"), 9, 1, 2);
    app.note_delta_link(b("y"), 9, 1, 2);
    app.mark_recreated(b("other"));
    let plan = app.plan_links();
    assert!(plan.is_empty());
}

#[test]
fn single_link_files_are_not_grouped() {
    let mut eng = DiffEngine::new(b("1.0"), b("/s"), b("/t"));
    eng.add_source_file(b("a"));
    eng.note_target_link(b("a"), 3, 1, 1);
    let r = eng.decide(&b("a"), &b("o"), &b("n"), None, None).unwrap();
    match r {
        FileAction::Rewrite { content } => assert_eq!(content, b("n")),
        _ => panic!("expected a rewrite"),
    }
}

#[test]
fn each_source_path_is_matched_once() {
    let mut eng = DiffEngine::new(b("1.0"), b("/s"), b("/t"));
    eng.add_source_file(b("a"));
    eng.decide(&b("a"), &b("x"), &b("x"), None, None).unwrap();
    assert!(!eng.matches_source(&b("a")));
}

#[test]
fn plan_covers_several_groups_in_walk_order() {
    let mut app = ApplyEngine::new();
    app.note_delta_link(b("g1/a"), 1, 1, 2);
    app.note_delta_link(b("g1/b"), 1, 1, 2);
    app.note_delta_link(b("g2/c"), 2, 1, 3);
    app.note_delta_link(b("g2/d"), 2, 1, 3);
    app.note_delta_link(b("g2/e"), 2, 1, 3);
    app.mark_recreated(b("g1/b"));
    app.mark_recreated(b("g2/d"));
    let plan = app.plan_links();
    assert_eq!(
        plan,
        vec![
            (b("g1/b"), b("g1/a")),
            (b("g2/d"), b("g2/c")),
            (b("g2/d"), b("g2/e")),
        ]
    );
}
