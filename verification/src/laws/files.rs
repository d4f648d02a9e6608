//! Where the files that the model needs are looked for, and what is done about them.

use vstd::prelude::*;

use crate::chars::ends_with;
use crate::models::archive::{
    all_sizes_fit, archived_contents, archived_path, claims_vast, is_extraction, is_long_sparse,
    is_search, member_path, names_vast, none_before, not_present, number_from,
    unpacked, Extracted, GNU_FORMAT, SIZE_KEY,
};
use crate::models::{
    cache_path, expanded, joined_path, lib_name, plan, set_to, verdict, Asset, Environment, Order,
    Platform, Verdict, MODEL_FILE, ORT_RELEASES, ORT_VERSION, RELEASE, VOICES_FILE,
};

verus! {

/// A path that starts with a slash stands for itself, whatever it is seen from. Any other
/// one comes after what it is seen from, with exactly one slash more between them where
/// there is none at its end.
pub proof fn paths_are_seen_from_a_directory(base: Seq<char>, rest: Seq<char>)
    requires
        rest.len() == 0 || rest[0] != '/',
    ensures
        joined_path(base, seq!['/'] + rest) == seq!['/'] + rest,
        joined_path(Seq::empty(), rest) == rest,
        joined_path(base + seq!['/'], rest) == base + seq!['/'] + rest,
        base.len() > 0 && base.last() != '/' ==> joined_path(base, rest) == base + seq!['/']
            + rest,
{
    reveal_strlit("/");
    assert("/"@ =~= seq!['/']);
    assert((base + seq!['/']).last() == '/');
}

/// A tilde and a slash at the start of a path stand for the user's home directory, where
/// that is known, and nothing else is changed.
pub proof fn tildes_stand_for_home(rest: Seq<char>, home: Seq<char>, path: Seq<char>)
    requires
        path.len() < 2 || path[0] != '~' || path[1] != '/',
    ensures
        expanded(seq!['~', '/'] + rest, Some(home)) == joined_path(home, rest),
        expanded(seq!['~', '/'] + rest, None) == seq!['~', '/'] + rest,
        expanded(path, Some(home)) == path,
        expanded(path, None) == path,
{
    assert((seq!['~', '/'] + rest).skip(2) =~= rest);
}

/// Files are kept in the directory that the environment names, as it stands, and otherwise
/// in a place in the user's cache, or in that of the directory at hand where the home
/// directory is not known.
pub proof fn files_are_kept_in_the_cache(env: Environment)
    ensures
        env.kokoro_home matches Some(dir) ==> cache_path(env) == dir@,
        env.kokoro_home is None && env.home is None ==> cache_path(env) == "./.cache/kokoro-rs"@,
        env.kokoro_home is None ==> (env.home matches Some(home) ==> home@.len() > 0 && home@.last()
            != '/' ==> cache_path(env) == home@ + "/.cache/kokoro-rs"@),
{
    reveal_strlit("/");
    reveal_strlit(".");
    reveal_strlit(".cache");
    reveal_strlit("kokoro-rs");
    reveal_strlit("/.cache/kokoro-rs");
    reveal_strlit("./.cache/kokoro-rs");
    if env.kokoro_home is None {
        let home = match env.home {
            Some(home) => home@,
            None => "."@,
        };
        if home.len() > 0 && home.last() != '/' {
            assert(joined_path(home, ".cache"@) =~= home + "/"@ + ".cache"@);
            assert(cache_path(env) =~= home + "/"@ + ".cache"@ + "/"@ + "kokoro-rs"@);
            assert(cache_path(env) =~= home + "/.cache/kokoro-rs"@);
            if env.home is None {
                assert(cache_path(env) =~= "./.cache/kokoro-rs"@);
            }
        }
    }
}

/// A file is looked for where the environment says, its tilde expanded, and otherwise under
/// its own name in the directory that files are kept in.
pub proof fn files_are_looked_for_where_asked(env: Environment, platform: Platform)
    ensures
        Asset::Model.path_in(env) == match env.model {
            Some(path) => expanded(path@, set_to(env.home)),
            None => joined_path(cache_path(env), "kokoro-v1.0.onnx"@),
        },
        Asset::Voices.path_in(env) == match env.voices {
            Some(path) => expanded(path@, set_to(env.home)),
            None => joined_path(cache_path(env), "voices-v1.0.bin"@),
        },
        Asset::Runtime(platform).path_in(env) == match env.runtime {
            Some(path) => expanded(path@, set_to(env.home)),
            None => joined_path(cache_path(env), lib_name(platform)),
        },
        env.home matches Some(home) ==> set_to(env.home) == Some(home@),
        env.home is None ==> set_to(env.home) is None,
{
}

/// The runtime library has the version in its name: before the extension on the one system,
/// and after it on the other. It is published under that version and under the tag of the
/// platform.
pub proof fn runtimes_are_named_after_their_platform()
    ensures
        lib_name(Platform::MacX64) == "libonnxruntime.1.23.2.dylib"@,
        lib_name(Platform::MacArm64) == "libonnxruntime.1.23.2.dylib"@,
        lib_name(Platform::LinuxX64) == "libonnxruntime.so.1.23.2"@,
        lib_name(Platform::LinuxArm64) == "libonnxruntime.so.1.23.2"@,
        forall|platform: Platform| #[trigger]
            Asset::Runtime(platform).url_of() == ORT_RELEASES@ + "/v1.23.2/onnxruntime-"@ + (
            match platform {
                Platform::MacX64 => "osx-x86_64"@,
                Platform::MacArm64 => "osx-arm64"@,
                Platform::LinuxX64 => "linux-x64"@,
                Platform::LinuxArm64 => "linux-aarch64"@,
            }) + "-1.23.2.tgz"@,
        Asset::Model.url_of() == RELEASE@ + "/kokoro-v1.0.onnx"@,
        Asset::Voices.url_of() == RELEASE@ + "/voices-v1.0.bin"@,
{
    reveal_strlit("1.23.2");
    reveal_strlit("libonnxruntime.");
    reveal_strlit(".dylib");
    reveal_strlit("libonnxruntime.so.");
    reveal_strlit("libonnxruntime.1.23.2.dylib");
    reveal_strlit("libonnxruntime.so.1.23.2");
    reveal_strlit("/v");
    reveal_strlit("/onnxruntime-");
    reveal_strlit("/v1.23.2/onnxruntime-");
    reveal_strlit("-");
    reveal_strlit(".tgz");
    reveal_strlit("-1.23.2.tgz");
    reveal_strlit("/");
    reveal_strlit("kokoro-v1.0.onnx");
    reveal_strlit("/kokoro-v1.0.onnx");
    reveal_strlit("voices-v1.0.bin");
    reveal_strlit("/voices-v1.0.bin");
    assert("libonnxruntime."@ + ORT_VERSION@ + ".dylib"@ =~= "libonnxruntime.1.23.2.dylib"@);
    assert("libonnxruntime.so."@ + ORT_VERSION@ =~= "libonnxruntime.so.1.23.2"@);
    assert("/v"@ + ORT_VERSION@ + "/onnxruntime-"@ =~= "/v1.23.2/onnxruntime-"@);
    assert("-"@ + ORT_VERSION@ + ".tgz"@ =~= "-1.23.2.tgz"@);
    assert("/"@ + MODEL_FILE@ =~= "/kokoro-v1.0.onnx"@);
    assert("/"@ + VOICES_FILE@ =~= "/voices-v1.0.bin"@);
    assert(RELEASE@ + "/"@ + MODEL_FILE@ =~= RELEASE@ + ("/"@ + MODEL_FILE@));
    assert(RELEASE@ + "/"@ + VOICES_FILE@ =~= RELEASE@ + ("/"@ + VOICES_FILE@));
    assert forall|platform: Platform| #[trigger]
        Asset::Runtime(platform).url_of() == ORT_RELEASES@ + "/v1.23.2/onnxruntime-"@ + (
        match platform {
            Platform::MacX64 => "osx-x86_64"@,
            Platform::MacArm64 => "osx-arm64"@,
            Platform::LinuxX64 => "linux-x64"@,
            Platform::LinuxArm64 => "linux-aarch64"@,
        }) + "-1.23.2.tgz"@ by {
        let tag = platform.tag_of();
        assert(Asset::Runtime(platform).url_of() =~= ORT_RELEASES@ + ("/v"@ + ORT_VERSION@
            + "/onnxruntime-"@) + tag + ("-"@ + ORT_VERSION@ + ".tgz"@));
    }
}

/// A file that is there is used from where it was looked for. A missing one that the
/// environment names is an error that says which variable names it and where. Any other
/// missing one is fetched to where it was looked for, from where it is published, or an
/// error if nothing may be fetched.
pub proof fn files_are_used_fetched_or_missed(asset: Asset, env: Environment)
    ensures
        ({
            let path = asset.path_in(env);
            let named = match asset {
                Asset::Model => env.model is Some,
                Asset::Voices => env.voices is Some,
                Asset::Runtime(_) => env.runtime is Some,
            };
            let variable = match asset {
                Asset::Model => "KOKORO_MODEL"@,
                Asset::Voices => "KOKORO_VOICES"@,
                Asset::Runtime(_) => "ORT_DYLIB_PATH"@,
            };
            let source = match asset {
                Asset::Runtime(_) => "it is unpacked from the ONNX Runtime 1.23.2 release"@,
                _ => "download it from "@ + asset.url_of(),
            };
            &&& verdict(asset, env, true, true) == Verdict::Ready(path)
            &&& verdict(asset, env, true, false) == Verdict::Ready(path)
            &&& forall|download: bool|
                named ==> #[trigger] verdict(asset, env, false, download) == Verdict::Fail(
                    variable + "="@ + path + " does not exist"@,
                )
            &&& !named ==> verdict(asset, env, false, true) == (Verdict::Fetch {
                url: asset.url_of(),
                path,
            })
            &&& !named ==> verdict(asset, env, false, false) == Verdict::Fail(
                "missing "@ + path + "\n  "@ + source
                    + "\n  or run without --no-download to fetch it automatically"@,
            )
        }),
{
    reveal_strlit("it is unpacked from the ONNX Runtime ");
    reveal_strlit("1.23.2");
    reveal_strlit(" release");
    reveal_strlit("it is unpacked from the ONNX Runtime 1.23.2 release");
    assert("it is unpacked from the ONNX Runtime "@ + ORT_VERSION@ + " release"@
        =~= "it is unpacked from the ONNX Runtime 1.23.2 release"@);
}

/// The model comes before its voices: where it cannot be had nothing is fetched and its
/// error is told, where the voices cannot be had the error is theirs, and otherwise exactly
/// the missing ones are fetched, the model first, each to where it was looked for.
pub proof fn the_model_comes_before_its_voices(
    env: Environment,
    model_there: bool,
    voices_there: bool,
    download: bool,
)
    ensures
        ({
            let r = plan(env, model_there, voices_there, download);
            let model_had = model_there || download && env.model is None;
            let voices_had = voices_there || download && env.voices is None;
            let model = Order { url: Asset::Model.url_of(), path: Asset::Model.path_in(env) };
            let voices = Order { url: Asset::Voices.url_of(), path: Asset::Voices.path_in(env) };
            &&& !model_had ==> r.fetches.len() == 0 && verdict(
                Asset::Model,
                env,
                false,
                download,
            ) == Verdict::Fail(r.paths->Err_0) && r.paths is Err
            &&& model_had && !voices_had ==> verdict(Asset::Voices, env, false, download)
                == Verdict::Fail(r.paths->Err_0) && r.paths is Err
            &&& model_had && !voices_had && model_there ==> r.fetches.len() == 0
            &&& model_had && !voices_had && !model_there ==> r.fetches == seq![model]
            &&& model_had && voices_had ==> r.paths == Ok::<(Seq<char>, Seq<char>), Seq<char>>(
                (model.path, voices.path),
            )
            &&& model_had && voices_had ==> r.fetches == match (model_there, voices_there) {
                (true, true) => Seq::empty(),
                (true, false) => seq![voices],
                (false, true) => seq![model],
                (false, false) => seq![model, voices],
            }
        }),
{
    let r = plan(env, model_there, voices_there, download);
    let model = Order { url: Asset::Model.url_of(), path: Asset::Model.path_in(env) };
    let voices = Order { url: Asset::Voices.url_of(), path: Asset::Voices.path_in(env) };
    assert(seq![model] + seq![voices] =~= seq![model, voices]);
    assert(seq![model] + Seq::<Order>::empty() =~= seq![model]);
    assert(Seq::<Order>::empty() + seq![voices] =~= seq![voices]);
}

/// The first entry whose path ends with what is wanted is the one that is taken, with all of
/// its bytes, and no entry after it is looked at.
pub proof fn the_first_match_is_taken(
    tar: Seq<u8>,
    cut: bool,
    wanted: Seq<char>,
    n: nat,
    path: Seq<char>,
    r: Extracted,
)
    requires
        is_search(tar, cut, wanted, r),
        n < usize::MAX,
        forall|k: nat|
            k < n ==> (#[trigger] archived_path(tar, cut, k) matches Ok(Some(path)) && !ends_with(
                path,
                wanted,
            )),
        archived_path(tar, cut, n) == Ok::<_, ()>(Some(path)),
        ends_with(path, wanted),
    ensures
        archived_contents(tar, cut, n) matches Ok(bytes) ==> (r matches Extracted::Found(found)
            && found@ == bytes),
        archived_contents(tar, cut, n) is Err ==> r is Unreadable,
{
    lemma_search_stops(tar, cut, wanted, n, r);
}

/// An archive without what is wanted is said to lack it, and one that cannot be read before
/// it is found to be unreadable.
pub proof fn archives_without_a_match_lack_it(
    tar: Seq<u8>,
    cut: bool,
    wanted: Seq<char>,
    n: nat,
    r: Extracted,
)
    requires
        is_search(tar, cut, wanted, r),
        n < usize::MAX,
        forall|k: nat|
            k < n ==> (#[trigger] archived_path(tar, cut, k) matches Ok(Some(path)) && !ends_with(
                path,
                wanted,
            )),
        !(archived_path(tar, cut, n) matches Ok(Some(_))),
    ensures
        archived_path(tar, cut, n) is Ok ==> r == Extracted::Missing,
        archived_path(tar, cut, n) is Err ==> r is Unreadable,
{
    lemma_search_stops(tar, cut, wanted, n, r);
}

/// A search that has to stop at the `n`th entry stops there.
proof fn lemma_search_stops(tar: Seq<u8>, cut: bool, wanted: Seq<char>, n: nat, r: Extracted)
    requires
        is_search(tar, cut, wanted, r),
        n < usize::MAX,
        none_before(tar, cut, wanted, n),
        !(archived_path(tar, cut, n) matches Ok(Some(path)) && !ends_with(path, wanted)),
    ensures
        r is Endless ==> false,
        r matches Extracted::Found(found) ==> (archived_path(tar, cut, n) matches Ok(Some(path))
            && ends_with(path, wanted)) && archived_contents(tar, cut, n) == Ok::<Seq<u8>, ()>(
            found@,
        ),
        r is Missing ==> archived_path(tar, cut, n) == Ok::<_, ()>(None::<Seq<char>>),
        r is Unreadable ==> archived_path(tar, cut, n) is Err || (archived_path(
            tar,
            cut,
            n,
        ) matches Ok(Some(path)) && archived_contents(tar, cut, n) is Err),
{
    match r {
        Extracted::Found(bytes) => {
            let m = choose|m: nat|
                {
                    &&& none_before(tar, cut, wanted, m)
                    &&& #[trigger] archived_path(tar, cut, m) matches Ok(Some(path)) && ends_with(
                        path,
                        wanted,
                    )
                    &&& archived_contents(tar, cut, m) == Ok::<Seq<u8>, ()>(bytes@)
                };
            assert(m >= n) by {
                if m < n {
                    assert(archived_path(tar, cut, m) is Ok);
                }
            }
            if n < m {
                assert(archived_path(tar, cut, n) is Ok);
            }
        },
        Extracted::Missing => {
            let m = choose|m: nat|
                none_before(tar, cut, wanted, m) && #[trigger] archived_path(tar, cut, m) == Ok::<
                    _,
                    (),
                >(None::<Seq<char>>);
            if m < n {
                assert(archived_path(tar, cut, m) is Ok);
            }
            if n < m {
                assert(archived_path(tar, cut, n) is Ok);
            }
        },
        Extracted::Unreadable(_) => {
            let m = choose|m: nat|
                {
                    &&& none_before(tar, cut, wanted, m)
                    &&& match #[trigger] archived_path(tar, cut, m) {
                        Err(_) => true,
                        Ok(Some(path)) => ends_with(path, wanted) && archived_contents(
                            tar,
                            cut,
                            m,
                        ) is Err,
                        Ok(None) => false,
                    }
                };
            if m < n {
                assert(archived_path(tar, cut, m) is Ok);
            }
            if n < m {
                assert(archived_path(tar, cut, n) is Ok);
            }
        },
        Extracted::Endless => {
            assert(archived_path(tar, cut, n) is Ok);
        },
    }
}

/// An archive is looked into exactly where no sparse file in it claims a size of 2^63 or
/// more: any other one is refused whatever is wanted of it, and the refusal says why.
pub proof fn impossible_sizes_are_refused(tgz: Seq<u8>, wanted: Seq<char>, r: Extracted)
    requires
        is_extraction(tgz, wanted, r),
    ensures
        all_sizes_fit(unpacked(tgz).0) ==> is_search(unpacked(tgz).0, unpacked(tgz).1, wanted, r),
        !all_sizes_fit(unpacked(tgz).0) ==> (r matches Extracted::Unreadable(reason) && reason@
            == "an entry of the archive claims an impossible size"@),
{
}

/// Whether the `b`th block of an archive is the header of a sparse file with further
/// headers, in GNU tar's format: an `S` for its kind, `ustar`, two spaces and a zero for the
/// format, and a one for the further headers.
pub open spec fn has_further_headers(tar: Seq<u8>, b: int) -> bool {
    &&& 0 <= b
    &&& 512 * b + 512 <= tar.len()
    &&& tar[512 * b + 156] == 83
    &&& tar[512 * b + 257] == 117
    &&& tar[512 * b + 258] == 115
    &&& tar[512 * b + 259] == 116
    &&& tar[512 * b + 260] == 97
    &&& tar[512 * b + 261] == 114
    &&& tar[512 * b + 262] == 32
    &&& tar[512 * b + 263] == 32
    &&& tar[512 * b + 264] == 0
    &&& tar[512 * b + 482] == 1
}

/// Whether such a header claims a size of 2^63 or more, in binary.
pub open spec fn claims_too_much(tar: Seq<u8>, b: int) -> bool {
    tar[512 * b + 124] >= 128 && tar[512 * b + 128] >= 128
}

/// Whether a size of 2^63 or more is spelt out at `j`: its key, an equals sign, a plus sign
/// or none, and the digits.
pub open spec fn spells_too_much(tar: Seq<u8>, j: int) -> bool {
    &&& 0 <= j && j + 5 <= tar.len()
    &&& tar[j] == 115 && tar[j + 1] == 105 && tar[j + 2] == 122 && tar[j + 3] == 101 && tar[j + 4]
        == 61
    &&& number_from(
        tar,
        if j + 5 < tar.len() && tar[j + 5] == 43 {
            j + 6
        } else {
            j + 5
        },
        0,
    ) >= 0x8000_0000_0000_0000
}

/// Such a header is the one that is looked for.
proof fn lemma_further_headers(tar: Seq<u8>, b: int)
    ensures
        has_further_headers(tar, b) <==> is_long_sparse(tar, b),
        claims_too_much(tar, b) <==> claims_vast(tar, b),
{
    let at = 512 * b;
    if has_further_headers(tar, b) {
        assert(tar.subrange(at + 257, at + 265) =~= GNU_FORMAT@);
    }
    if is_long_sparse(tar, b) {
        let format = tar.subrange(at + 257, at + 265);
        assert(format[0] == 117 && format[1] == 115 && format[2] == 116 && format[3] == 97
            && format[4] == 114 && format[5] == 32 && format[6] == 32 && format[7] == 0);
    }
}

/// A size that is spelt out is the one that is looked for.
proof fn lemma_spelt_size(tar: Seq<u8>, j: int)
    ensures
        spells_too_much(tar, j) <==> names_vast(tar, j),
{
    if spells_too_much(tar, j) {
        assert(tar.subrange(j, j + 5) =~= SIZE_KEY@);
    }
    if names_vast(tar, j) {
        let key = tar.subrange(j, j + 5);
        assert(key[0] == 115 && key[1] == 105 && key[2] == 122 && key[3] == 101 && key[4] == 61);
    }
}

/// A sparse file that claims a size of 2^63 or more, or before which one is spelt out, is one
/// that no archive may have.
pub proof fn large_sizes_are_told(tar: Seq<u8>, b: int, j: int)
    requires
        has_further_headers(tar, b),
        claims_too_much(tar, b) || 0 <= j < 512 * b && spells_too_much(tar, j),
    ensures
        !all_sizes_fit(tar),
{
    lemma_further_headers(tar, b);
    lemma_spelt_size(tar, j);
}

/// Without such a file, all sizes fit.
pub proof fn other_sizes_fit(tar: Seq<u8>)
    requires
        forall|b: int| #[trigger]
            has_further_headers(tar, b) ==> !claims_too_much(tar, b) && forall|j: int|
                0 <= j < 512 * b ==> !#[trigger] spells_too_much(tar, j),
    ensures
        all_sizes_fit(tar),
{
    assert forall|b: int| #[trigger] is_long_sparse(tar, b) implies !claims_vast(tar, b)
        && forall|j: int| 0 <= j < 512 * b ==> !#[trigger] names_vast(tar, j) by {
        lemma_further_headers(tar, b);
        assert(has_further_headers(tar, b));
        assert forall|j: int| 0 <= j < 512 * b implies !#[trigger] names_vast(tar, j) by {
            lemma_spelt_size(tar, j);
        }
    }
}

/// The digits of a number are read from the first on, up to the first byte that is none.
pub proof fn spelt_numbers_are_read_digit_by_digit(s: Seq<u8>, k: int, value: nat)
    requires
        0 <= k <= s.len(),
    ensures
        k < s.len() && 48 <= s[k] <= 57 ==> number_from(s, k, value) == number_from(
            s,
            k + 1,
            (10 * value + s[k] - 48) as nat,
        ),
        k == s.len() || s[k] < 48 || s[k] > 57 ==> number_from(s, k, value) == value,
{
}

/// The shared library is in the directory of libraries, under its own name, and where it is
/// not the message says so and where the archive came from.
pub proof fn libraries_are_in_their_directory(name: Seq<char>, url: Seq<char>)
    ensures
        member_path(name) == seq!['l', 'i', 'b', '/'] + name,
        not_present(name, url) == name + " was not present in "@ + url,
{
    reveal_strlit("lib/");
    assert("lib/"@ =~= seq!['l', 'i', 'b', '/']);
}

} // verus!
