use std::io::{Read, Write};

use aes_gcm::aead::Aead;
use aes_gcm::KeyInit;
use rand::Rng;

use grfpatch::embed::{
    append_bundle, embed_config_in_exe, embed_with_nonce, extract_embedded_config, locate_bundle,
    open_bundle, seal_config, EmbedError,
};
use grfpatch::generator::{plan_entry, posix_path, win32_path, PatchAction, PatchEntry, PathKind};
use grfpatch::patcher::cache::PatcherCache;
use grfpatch::patcher::config::{
    retrieve_patcher_configuration, ClientConfiguration, ConfigurationSource, PatchServerInfo,
    PatcherConfiguration, PatchingConfiguration, PlayConfiguration, SetupConfiguration,
    WebConfiguration, WindowConfiguration,
};
use grfpatch::patcher::ui::{
    dispatch_request, handle_setup, login_arguments, start_game_client, PatchingStatus, UiAction,
    UiEvent, WindowState,
};

fn sample_configuration() -> PatcherConfiguration {
    PatcherConfiguration {
        window: WindowConfiguration {
            title: "Patcher".to_string(),
            width: 780,
            height: 580,
            resizable: false,
            frameless: Some(true),
            border_radius: None,
        },
        play: PlayConfiguration {
            path: "client.exe".to_string(),
            arguments: vec!["1rag1".to_string()],
            exit_on_success: None,
            play_with_error: None,
            minimize_on_start: None,
        },
        setup: SetupConfiguration {
            path: "setup.exe".to_string(),
            arguments: vec!["-a".to_string(), "-b".to_string()],
            exit_on_success: None,
        },
        web: WebConfiguration {
            index_url: "https://example.com/index.html".to_string(),
            preferred_patch_server: None,
            patch_servers: vec![PatchServerInfo {
                name: "primary".to_string(),
                plist_url: "https://example.com/plist.txt".to_string(),
                patch_url: "https://example.com/data/".to_string(),
            }],
        },
        client: ClientConfiguration { default_grf_name: "data.grf".to_string() },
        patching: PatchingConfiguration { in_place: true, check_integrity: true, create_grf: false },
    }
}

#[test]
fn test_compress_encrypt_decrypt_decompress() {
    let original = b"Hello, World! This is a test YAML config.";
    let mut nonce_bytes = [0u8; 12];
    rand::thread_rng().fill(&mut nonce_bytes);
    let bundle = seal_config(original, &nonce_bytes).unwrap();
    assert_eq!(&bundle[..12], &nonce_bytes);
    assert_ne!(&bundle[12..], original.as_slice());
    let decompressed = open_bundle(&bundle).unwrap();
    assert_eq!(original.as_slice(), decompressed.as_slice());
}

#[test]
fn embedded_settings_are_read_back() {
    let exe = vec![0x4Du8, 0x5A, 0x90, 0x00, 0x03];
    let config = b"window:\n  title: test\n";
    let file = embed_config_in_exe(&exe, config).unwrap();
    assert_eq!(&file[..exe.len()], &exe[..]);
    assert_eq!(&file[file.len() - 4..], b"KCFG");
    let (start, len) = locate_bundle(&file).unwrap();
    assert_eq!(start, exe.len());
    assert_eq!(len, file.len() - exe.len() - 8);
    assert_eq!(
        u32::from_le_bytes([
            file[file.len() - 8],
            file[file.len() - 7],
            file[file.len() - 6],
            file[file.len() - 5]
        ]) as usize,
        len
    );
    assert_eq!(extract_embedded_config(&file).unwrap(), config.to_vec());
    let again = embed_with_nonce(&exe, config, &[7u8; 12]).unwrap();
    assert_eq!(again, embed_with_nonce(&exe, config, &[7u8; 12]).unwrap());
    assert_eq!(&again[exe.len()..exe.len() + 12], &[7u8; 12]);
}

#[test]
fn files_without_settings_are_told_apart() {
    assert_eq!(locate_bundle(&[1, 2, 3]), Err(EmbedError::TooSmall));
    assert_eq!(locate_bundle(&[0u8; 20]), Err(EmbedError::NoMarker));
    assert_eq!(locate_bundle(b"xxxxxxxx\0\0\0\0KCFG"), Err(EmbedError::InvalidSize));
    assert_eq!(locate_bundle(b"xxxxxxxx\x09\0\0\0KCFG"), Err(EmbedError::InvalidSize));
    assert_eq!(locate_bundle(b"xxxxxxxx\x08\0\0\0KCFG"), Err(EmbedError::TooShort));
    assert_eq!(locate_bundle(b"exe.xxxxxxxxxxxx\x0c\0\0\0KCFG"), Ok((4, 12)));
    assert_eq!(extract_embedded_config(&[0u8; 20]), Err(EmbedError::NoMarker));
    assert_eq!(open_bundle(&[0u8; 11]), Err(EmbedError::TooShort));
    assert_eq!(open_bundle(&[0u8; 40]), Err(EmbedError::Decrypt));
    let appended = append_bundle(b"exe", &[9u8; 13]).unwrap();
    assert_eq!(appended.len(), 3 + 13 + 8);
    assert_eq!(locate_bundle(&appended), Ok((3, 13)));
}

#[test]
fn tampered_settings_are_refused() {
    let mut file = embed_with_nonce(b"program", b"a: 1\n", &[3u8; 12]).unwrap();
    let at = file.len() - 10;
    file[at] ^= 1;
    assert_eq!(extract_embedded_config(&file), Err(EmbedError::Decrypt));
}

#[test]
fn embedded_configuration_wins() {
    let config = sample_configuration();
    match retrieve_patcher_configuration(Some(config), Some("other.yml".to_string())) {
        ConfigurationSource::Embedded(c) => assert_eq!(c.window.title, "Patcher"),
        other => panic!("unexpected source {:?}", other),
    }
    match retrieve_patcher_configuration(None, Some("other.yml".to_string())) {
        ConfigurationSource::File(path) => assert_eq!(path, "other.yml"),
        other => panic!("unexpected source {:?}", other),
    }
    assert!(matches!(retrieve_patcher_configuration(None, None), ConfigurationSource::DefaultFile));
}

#[test]
fn game_client_is_started_with_the_given_arguments() {
    let config = sample_configuration();
    let args = vec!["-t:secret".to_string(), "me".to_string()];
    let request = start_game_client(&config, &args);
    assert_eq!(request.path, "client.exe");
    assert_eq!(request.arguments, args);
    let setup = handle_setup(&config);
    assert_eq!(setup.path, "setup.exe");
    assert_eq!(setup.arguments, vec!["-a".to_string(), "-b".to_string()]);
}

#[test]
fn requests_from_the_page_are_told_apart() {
    let mut config = sample_configuration();
    let ask = |request: &str, busy: bool, config: &PatcherConfiguration| {
        dispatch_request(&request.to_string(), busy, config)
    };
    match ask("play", false, &config) {
        UiAction::Launch { request, then_exit } => {
            assert_eq!(request.path, "client.exe");
            assert_eq!(request.arguments, vec!["1rag1".to_string()]);
            assert!(then_exit);
        }
        other => panic!("unexpected action {:?}", other),
    }
    match ask("setup", true, &config) {
        UiAction::Launch { request, then_exit } => {
            assert_eq!(request.path, "setup.exe");
            assert!(!then_exit);
        }
        other => panic!("unexpected action {:?}", other),
    }
    config.play.exit_on_success = Some(false);
    config.setup.exit_on_success = Some(true);
    assert!(matches!(ask("play", false, &config), UiAction::Launch { then_exit: false, .. }));
    assert!(matches!(ask("setup", false, &config), UiAction::Launch { then_exit: true, .. }));
    assert!(matches!(ask("exit", false, &config), UiAction::Exit));
    assert!(matches!(ask("start_update", false, &config), UiAction::StartUpdate));
    assert!(matches!(ask("start_update", true, &config), UiAction::NotifyInProgress));
    assert!(matches!(ask("cancel_update", true, &config), UiAction::CancelUpdate));
    assert!(matches!(ask("reset_cache", false, &config), UiAction::ResetCache));
    assert!(matches!(ask("manual_patch", false, &config), UiAction::ManualPatch));
    assert!(matches!(ask("manual_patch", true, &config), UiAction::NotifyInProgress));
    assert!(matches!(ask("minimize", false, &config), UiAction::Minimize));
    assert!(matches!(ask("start_drag", false, &config), UiAction::StartDrag));
    assert!(matches!(ask("{\"function\":\"login\"}", false, &config), UiAction::Json));
    assert!(matches!(ask("Play", false, &config), UiAction::Json));
}

#[test]
fn login_puts_the_password_first() {
    let args = login_arguments("me".to_string(), "secret", &["1rag1".to_string()]);
    assert_eq!(args, vec!["-t:secret", "me", "server", "1rag1"]);
}

#[test]
fn plain_data_types_hold_what_they_are_given() {
    let cache = PatcherCache { last_patch_index: 42 };
    assert_eq!(cache.last_patch_index, 42);
    assert_eq!(WindowState::default(), WindowState { x: 0, y: 0 });
    let event = UiEvent::PatchingStatus(PatchingStatus::DownloadInProgress(1, 2, 300));
    assert!(matches!(event, UiEvent::PatchingStatus(PatchingStatus::DownloadInProgress(1, 2, 300))));
    assert!(matches!(UiEvent::SetPatchInProgress(true), UiEvent::SetPatchInProgress(true)));
}

#[test]
fn separators_are_swapped() {
    assert_eq!(posix_path("data\\sub\\file.txt"), "data/sub/file.txt");
    assert_eq!(win32_path("data/sub/file.txt"), "data\\sub\\file.txt");
    assert_eq!(win32_path("data\\already"), "data\\already");
    assert_eq!(posix_path(""), "");
}

#[test]
fn entries_of_a_patch_definition_are_planned() {
    let entry = |removed: bool, target: Option<&str>| PatchEntry {
        relative_path: "data/sub\\file.txt".to_string(),
        is_removed: removed,
        in_grf_path: target.map(|t| t.to_string()),
    };
    match plan_entry(&entry(true, Some("x")), PathKind::File) {
        PatchAction::Remove(path) => assert_eq!(path, "data\\sub\\file.txt"),
        other => panic!("unexpected action {:?}", other),
    }
    match plan_entry(&entry(false, None), PathKind::File) {
        PatchAction::UpdateFile { native_path, archive_path } => {
            assert_eq!(native_path, "data/sub/file.txt");
            assert_eq!(archive_path, "data\\sub\\file.txt");
        }
        other => panic!("unexpected action {:?}", other),
    }
    match plan_entry(&entry(false, Some("file.txt")), PathKind::File) {
        PatchAction::UpdateFile { archive_path, .. } => assert_eq!(archive_path, "file.txt"),
        other => panic!("unexpected action {:?}", other),
    }
    assert!(matches!(
        plan_entry(&entry(false, None), PathKind::Directory),
        PatchAction::UpdateDirectory { .. }
    ));
    assert!(matches!(
        plan_entry(&entry(false, None), PathKind::Missing),
        PatchAction::Invalid { .. }
    ));
}

fn cipher() -> aes_gcm::Aes256Gcm {
    aes_gcm::Aes256Gcm::new(aes_gcm::Key::<aes_gcm::Aes256Gcm>::from_slice(
        &grfpatch::embed::ENCRYPTION_KEY,
    ))
}

#[test]
fn sealed_settings_are_gzip_under_the_cipher() {
    let config = b"patching:\n  in_place: true\n";
    let nonce = [5u8; 12];
    let bundle = seal_config(config, &nonce).unwrap();
    let packed = cipher().decrypt(aes_gcm::Nonce::from_slice(&nonce), &bundle[12..]).unwrap();
    assert_eq!(&packed[..2], &[0x1f, 0x8b]);
    let mut content = Vec::new();
    flate2::read::GzDecoder::new(&packed[..]).read_to_end(&mut content).unwrap();
    assert_eq!(content, config.to_vec());
}

#[test]
fn bundles_made_elsewhere_are_opened() {
    let config = b"client:\n  default_grf_name: data.grf\n";
    let nonce = [9u8; 12];
    let mut encoder = flate2::write::GzEncoder::new(Vec::new(), flate2::Compression::best());
    encoder.write_all(config).unwrap();
    let packed = encoder.finish().unwrap();
    let sealed = cipher().encrypt(aes_gcm::Nonce::from_slice(&nonce), &packed[..]).unwrap();
    let mut bundle = nonce.to_vec();
    bundle.extend_from_slice(&sealed);
    assert_eq!(open_bundle(&bundle), Ok(config.to_vec()));
}

#[test]
fn a_bundle_that_is_not_gzip_is_refused() {
    let nonce = [1u8; 12];
    let sealed = cipher().encrypt(aes_gcm::Nonce::from_slice(&nonce), &b"not gzip"[..]).unwrap();
    let mut bundle = nonce.to_vec();
    bundle.extend_from_slice(&sealed);
    assert_eq!(open_bundle(&bundle), Err(EmbedError::Decompress));
}

#[test]
fn every_embedding_draws_a_new_nonce() {
    let first = embed_config_in_exe(b"exe", b"a: 1\n").unwrap();
    let second = embed_config_in_exe(b"exe", b"a: 1\n").unwrap();
    assert_ne!(&first[3..15], &second[3..15]);
    assert_eq!(extract_embedded_config(&first), extract_embedded_config(&second));
}
