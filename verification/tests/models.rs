use std::io::Write;

use kokoro_rs::models::archive::{
    extract, runtime_library, sizes_fit, Extracted, VAST_ENTRY,
};
use kokoro_rs::models::progress::{content_length, progress_bar, shows_progress};
use kokoro_rs::models::{
    cache_dir, ensure_onnxruntime, expand_tilde, join_path, ort_lib_name, resolve,
    resolve_model_files, Asset, Environment, Fetch, Platform, Resolution,
};

fn environment(home: Option<&str>, kokoro_home: Option<&str>) -> Environment {
    Environment {
        home: home.map(str::to_string),
        kokoro_home: kokoro_home.map(str::to_string),
        model: None,
        voices: None,
        runtime: None,
    }
}

#[test]
fn cache_dir_follows_the_environment() {
    // KOKORO_HOME wins; otherwise the path sits under the user's cache.
    assert_eq!(cache_dir(&environment(Some("/home/me"), Some("/data"))), "/data");
    assert_eq!(
        cache_dir(&environment(Some("/home/me"), None)),
        "/home/me/.cache/kokoro-rs"
    );
    assert_eq!(cache_dir(&environment(None, None)), "./.cache/kokoro-rs");
    assert!(cache_dir(&environment(Some("/"), None)).ends_with("kokoro-rs"));
}

#[test]
fn paths_are_joined_as_the_system_does() {
    for (base, rest) in [
        ("/a", "b"),
        ("/a/", "b"),
        ("", "b"),
        ("a", "/b"),
        ("a", ""),
        ("a/b", "c/d"),
    ] {
        let expected = std::path::Path::new(base).join(rest);
        assert_eq!(join_path(base, rest), expected.to_str().unwrap());
    }
}

#[test]
fn a_leading_tilde_is_the_home_directory() {
    let env = environment(Some("/home/me"), None);
    assert_eq!(expand_tilde("~/x/y", &env), "/home/me/x/y");
    assert_eq!(expand_tilde("~x/y", &env), "~x/y");
    assert_eq!(expand_tilde("/x/~/y", &env), "/x/~/y");
    assert_eq!(expand_tilde("~/x", &environment(None, None)), "~/x");
}

#[test]
fn library_names_differ_by_system() {
    assert_eq!(ort_lib_name(Platform::MacX64), "libonnxruntime.1.23.2.dylib");
    assert_eq!(ort_lib_name(Platform::MacArm64), "libonnxruntime.1.23.2.dylib");
    assert_eq!(ort_lib_name(Platform::LinuxX64), "libonnxruntime.so.1.23.2");
    assert_eq!(ort_lib_name(Platform::LinuxArm64), "libonnxruntime.so.1.23.2");
    assert_eq!(
        Asset::Runtime(Platform::LinuxArm64).url(),
        "https://github.com/microsoft/onnxruntime/releases/download/v1.23.2/onnxruntime-linux-aarch64-1.23.2.tgz"
    );
    assert_eq!(
        Asset::Runtime(Platform::MacX64).url(),
        "https://github.com/microsoft/onnxruntime/releases/download/v1.23.2/onnxruntime-osx-x86_64-1.23.2.tgz"
    );
    assert_eq!(Platform::MacArm64.tag(), "osx-arm64");
    assert_eq!(Platform::LinuxX64.tag(), "linux-x64");
}

#[test]
fn model_files_are_fetched_where_they_are_missing() {
    let env = environment(None, Some("/data"));
    let release =
        "https://github.com/thewh1teagle/kokoro-onnx/releases/download/model-files-v1.0";
    let model = Fetch {
        url: format!("{release}/kokoro-v1.0.onnx"),
        path: "/data/kokoro-v1.0.onnx".to_string(),
    };
    let voices = Fetch {
        url: format!("{release}/voices-v1.0.bin"),
        path: "/data/voices-v1.0.bin".to_string(),
    };
    let paths = Ok((model.path.clone(), voices.path.clone()));
    let files = resolve_model_files(&env, true, false, true);
    assert_eq!(files.fetches, [voices]);
    assert_eq!(files.paths, paths);
    let files = resolve_model_files(&env, true, true, true);
    assert!(files.fetches.is_empty());
    assert_eq!(files.paths, paths);
    // The model comes first.
    let files = resolve_model_files(&env, false, false, true);
    assert_eq!(files.fetches.len(), 2);
    assert_eq!(files.fetches[0], model);
    assert_eq!(files.paths, paths);
}

#[test]
fn missing_files_are_reported_where_they_may_not_be_fetched() {
    let env = environment(None, Some("/data"));
    let files = resolve_model_files(&env, false, false, false);
    assert!(files.fetches.is_empty());
    assert_eq!(
        files.paths.unwrap_err(),
        "missing /data/kokoro-v1.0.onnx\n  download it from https://github.com/thewh1teagle/kokoro-onnx/releases/download/model-files-v1.0/kokoro-v1.0.onnx\n  or run without --no-download to fetch it automatically"
    );
    let files = resolve_model_files(&env, true, false, false);
    assert!(files.paths.unwrap_err().starts_with("missing /data/voices-v1.0.bin\n"));
    assert!(matches!(
        ensure_onnxruntime(Platform::LinuxX64, &env, false, false),
        Resolution::Fail(message) if message == "missing /data/libonnxruntime.so.1.23.2\n  it is unpacked from the ONNX Runtime 1.23.2 release\n  or run without --no-download to fetch it automatically"
    ));
}

#[test]
fn files_that_the_environment_names_are_never_fetched() {
    let mut env = environment(Some("/home/me"), None);
    env.voices = Some("~/v.bin".to_string());
    assert!(matches!(
        resolve(Asset::Voices, &env, false, true),
        Resolution::Fail(message) if message == "KOKORO_VOICES=/home/me/v.bin does not exist"
    ));
    assert!(matches!(
        resolve(Asset::Voices, &env, true, true),
        Resolution::Ready(path) if path == "/home/me/v.bin"
    ));
    // The model is fetched before the voices are looked at.
    let files = resolve_model_files(&env, false, false, true);
    assert_eq!(files.fetches.len(), 1);
    assert_eq!(files.fetches[0].path, "/home/me/.cache/kokoro-rs/kokoro-v1.0.onnx");
    assert_eq!(files.paths.unwrap_err(), "KOKORO_VOICES=/home/me/v.bin does not exist");
}

#[test]
fn the_runtime_is_fetched_or_used_where_it_is() {
    let mut env = environment(Some("/home/me"), None);
    let path = "/home/me/.cache/kokoro-rs/libonnxruntime.1.23.2.dylib";
    assert!(matches!(
        ensure_onnxruntime(Platform::MacArm64, &env, false, true),
        Resolution::Fetch { url, path: to }
            if url == Asset::Runtime(Platform::MacArm64).url() && to == path
    ));
    assert!(matches!(
        ensure_onnxruntime(Platform::MacArm64, &env, true, false),
        Resolution::Ready(at) if at == path
    ));
    env.runtime = Some("~/ort.so".to_string());
    assert_eq!(
        Asset::Runtime(Platform::LinuxX64).path(&env),
        ("/home/me/ort.so".to_string(), true)
    );
    assert!(matches!(
        ensure_onnxruntime(Platform::LinuxX64, &env, true, true),
        Resolution::Ready(at) if at == "/home/me/ort.so"
    ));
    assert!(matches!(
        ensure_onnxruntime(Platform::LinuxX64, &env, false, true),
        Resolution::Fail(message) if message == "ORT_DYLIB_PATH=/home/me/ort.so does not exist"
    ));
}

fn gzip(bytes: &[u8]) -> Vec<u8> {
    let mut encoder = flate2::write::GzEncoder::new(Vec::new(), flate2::Compression::default());
    encoder.write_all(bytes).unwrap();
    encoder.finish().unwrap()
}

/// A sparse file of one block at its start, with a further header that holds nothing.
fn sparse(size: u64, length: u64, data: &[u8]) -> Vec<u8> {
    let mut header = tar::Header::new_gnu();
    header.set_path("lib/x").unwrap();
    header.set_mode(0o644);
    header.set_entry_type(tar::EntryType::GNUSparse);
    header.set_size(size);
    let gnu = header.as_gnu_mut().unwrap();
    gnu.set_is_extended(true);
    gnu.set_real_size(length);
    gnu.sparse[0].set_offset(0);
    gnu.sparse[0].set_length(length);
    header.set_cksum();
    let mut file = header.as_bytes().to_vec();
    file.extend([0; 512]);
    file.extend(data);
    file
}

/// The extended header of the file after it: `record` and its length.
fn extended(record: &str) -> Vec<u8> {
    let line = format!("{} {record}\n", record.len() + 4);
    let mut header = tar::Header::new_ustar();
    header.set_path("x").unwrap();
    header.set_mode(0o644);
    header.set_entry_type(tar::EntryType::XHeader);
    header.set_size(line.len() as u64);
    header.set_cksum();
    let mut file = header.as_bytes().to_vec();
    file.extend(line.as_bytes());
    file.resize(1024, 0);
    file
}

fn tgz(files: &[(&str, &[u8])]) -> Vec<u8> {
    let encoder = flate2::write::GzEncoder::new(Vec::new(), flate2::Compression::default());
    let mut builder = tar::Builder::new(encoder);
    for (path, bytes) in files {
        let mut header = tar::Header::new_gnu();
        header.set_size(bytes.len() as u64);
        header.set_mode(0o644);
        header.set_cksum();
        builder.append_data(&mut header, path, *bytes).unwrap();
    }
    builder.into_inner().unwrap().finish().unwrap()
}

#[test]
fn the_library_is_taken_out_of_the_archive() {
    let archive = tgz(&[
        ("onnx/README", b"read me"),
        ("onnx/lib/libonnxruntime.so.1.23.2", b"library"),
        ("onnx/lib/libonnxruntime.so", b"link"),
    ]);
    assert_eq!(
        runtime_library(&archive, "libonnxruntime.so.1.23.2", "http://x"),
        Ok(b"library".to_vec())
    );
    assert_eq!(
        runtime_library(&archive, "libother.so", "http://x"),
        Err("lib/libother.so was not present in http://x".to_string())
    );
    assert!(matches!(extract(&archive, "README"), Extracted::Found(bytes) if bytes == b"read me"));
}

#[test]
fn an_archive_that_cannot_be_read_is_reported() {
    let mut archive = Vec::new();
    archive.write_all(b"not an archive at all").unwrap();
    assert!(matches!(extract(&archive, "x"), Extracted::Unreadable(_)));
    assert!(runtime_library(&archive, "x", "http://x").is_err());
    // Cut off in the middle of the wanted file.
    let whole = tgz(&[("lib/x", &[7u8; 100_000])]);
    assert!(matches!(extract(&whole, "lib/x"), Extracted::Found(bytes) if bytes == [7u8; 100_000]));
    assert!(matches!(extract(&whole[..whole.len() / 2].to_vec(), "lib/x"), Extracted::Unreadable(_)));
    assert!(matches!(extract(&tgz(&[]), "lib/x"), Extracted::Missing));
}

#[test]
fn progress_fills_the_bar() {
    assert_eq!(progress_bar(0, 10), "-".repeat(30));
    assert_eq!(progress_bar(5, 10), "#".repeat(15) + &"-".repeat(15));
    assert_eq!(progress_bar(99, 100), "#".repeat(29) + "-");
    assert_eq!(progress_bar(u64::MAX, u64::MAX), "#".repeat(30));
    assert_eq!(progress_bar(200, 100), "#".repeat(30));
    assert!(shows_progress(Some(1), true));
    assert!(!shows_progress(Some(0), true));
    assert!(!shows_progress(None, true));
    assert!(!shows_progress(Some(1), false));
    assert_eq!(content_length("1024"), Some(1024));
    assert_eq!(content_length("many"), None);
}

#[test]
fn sparse_files_are_read() {
    let data = [9u8; 512];
    let tar = sparse(512, 512, &data);
    assert!(sizes_fit(&tar));
    assert!(matches!(extract(&gzip(&tar), "lib/x"), Extracted::Found(bytes) if bytes == data));
}

#[test]
fn impossible_sizes_are_refused() {
    let vast = u64::MAX - 1023;
    for tar in [
        sparse(vast, 0, &[]),
        sparse(vast, vast, &[]),
        sparse(1 << 63, 1 << 63, &[]),
        [extended("size=18446744073709550592"), sparse(0, 0, &[])].concat(),
        [extended("size=+9223372036854775808"), sparse(0, 0, &[])].concat(),
    ] {
        assert!(!sizes_fit(&tar));
        let archive = gzip(&tar);
        assert!(matches!(
            extract(&archive, "lib/x"),
            Extracted::Unreadable(message) if message == VAST_ENTRY
        ));
        assert_eq!(runtime_library(&archive, "x", "http://x"), Err(VAST_ENTRY.to_string()));
    }
    for tar in [
        Vec::new(),
        sparse((1 << 63) - 1, 0, &[]),
        [extended("size=9223372036854775807"), sparse(0, 0, &[])].concat(),
        // After the last sparse file it does not matter, nor without one.
        [sparse(0, 0, &[]), extended("size=18446744073709550592")].concat(),
        extended("size=18446744073709550592"),
    ] {
        assert!(sizes_fit(&tar));
        assert!(!matches!(extract(&gzip(&tar), "lib/y"), Extracted::Found(_)));
    }
}

#[test]
fn damage_after_the_wanted_file_does_not_matter() {
    let mut archive = tgz(&[("lib/x", &[7u8; 2000]), ("lib/z", b"z")]);
    // The checksum at the end of the archive.
    let at = archive.len() - 8;
    archive[at] ^= 1;
    assert!(matches!(extract(&archive, "lib/x"), Extracted::Found(bytes) if bytes == [7u8; 2000]));
    assert!(matches!(extract(&archive, "lib/y"), Extracted::Missing));
    // Without the end of the archive, what is missing may have been in what was cut off.
    let file = sparse(0, 0, &[]);
    let mut whole = gzip(&file);
    assert!(matches!(extract(&whole, "lib/y"), Extracted::Missing));
    let at = whole.len() - 8;
    whole[at] ^= 1;
    assert!(matches!(extract(&whole, "lib/y"), Extracted::Unreadable(_)));
}
