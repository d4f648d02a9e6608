//! Locating and fetching the files the model needs at runtime.
//!
//! Three kinds of asset end up in the cache directory: the model and its voice pack,
//! downloaded on first use; the ONNX Runtime shared library, likewise downloaded;
//! and the phonemiser's data. After the first run nothing here touches the network.

use vstd::prelude::*;

use crate::chars::{substring, to_chars};

pub mod archive;
pub mod progress;

verus! {

/// Where the model and its voices are published.
pub const RELEASE: &'static str =
    "https://github.com/thewh1teagle/kokoro-onnx/releases/download/model-files-v1.0";

/// Where the ONNX Runtime is published.
pub const ORT_RELEASES: &'static str = "https://github.com/microsoft/onnxruntime/releases/download";

/// The model's file name.
pub const MODEL_FILE: &'static str = "kokoro-v1.0.onnx";

/// The voice pack's file name.
pub const VOICES_FILE: &'static str = "voices-v1.0.bin";

/// The last ONNX Runtime release with an official x86_64 macOS build. Every other
/// platform is published under the same version, so one pin covers all four.
pub const ORT_VERSION: &'static str = "1.23.2";

/// The platforms that the ONNX Runtime is fetched for.
#[derive(Debug, Clone, Copy, PartialEq, Eq, Structural)]
pub enum Platform {
    MacX64,
    MacArm64,
    LinuxX64,
    LinuxArm64,
}

impl Platform {
    /// The platform's tag in the names of the ONNX Runtime release archives.
    pub open spec fn tag_of(self) -> Seq<char> {
        match self {
            Platform::MacX64 => "osx-x86_64"@,
            Platform::MacArm64 => "osx-arm64"@,
            Platform::LinuxX64 => "linux-x64"@,
            Platform::LinuxArm64 => "linux-aarch64"@,
        }
    }

    /// The platform's tag in the names of the ONNX Runtime release archives.
    pub fn tag(&self) -> (r: &'static str)
        ensures
            r@ == self.tag_of(),
    {
        match self {
            Platform::MacX64 => "osx-x86_64",
            Platform::MacArm64 => "osx-arm64",
            Platform::LinuxX64 => "linux-x64",
            Platform::LinuxArm64 => "linux-aarch64",
        }
    }
}

/// The shared library's name: the two systems disagree about more than the
/// extension. One puts the version before it, the other after the soname.
pub open spec fn lib_name(platform: Platform) -> Seq<char> {
    match platform {
        Platform::MacX64 | Platform::MacArm64 => "libonnxruntime."@ + ORT_VERSION@ + ".dylib"@,
        Platform::LinuxX64 | Platform::LinuxArm64 => "libonnxruntime.so."@ + ORT_VERSION@,
    }
}

/// The shared library's name inside the release archive.
pub fn ort_lib_name(platform: Platform) -> (r: String)
    ensures
        r@ == lib_name(platform),
{
    match platform {
        Platform::MacX64 | Platform::MacArm64 => {
            let mut name = "libonnxruntime.".to_owned();
            name.append(ORT_VERSION);
            name.append(".dylib");
            name
        },
        Platform::LinuxX64 | Platform::LinuxArm64 => {
            let mut name = "libonnxruntime.so.".to_owned();
            name.append(ORT_VERSION);
            name
        },
    }
}

/// The path of `rest` as seen from `base`: an absolute one stands for itself.
pub open spec fn joined_path(base: Seq<char>, rest: Seq<char>) -> Seq<char> {
    if base.len() == 0 || rest.len() > 0 && rest[0] == '/' {
        rest
    } else if base.last() == '/' {
        base + rest
    } else {
        base + "/"@ + rest
    }
}

/// The path of `rest` as seen from `base`.
pub fn join_path(base: &str, rest: &str) -> (r: String)
    ensures
        r@ == joined_path(base@, rest@),
{
    let b = to_chars(base);
    let t = to_chars(rest);
    if b.len() == 0 || t.len() > 0 && t[0] == '/' {
        return rest.to_owned();
    }
    let mut path = base.to_owned();
    if b[b.len() - 1] != '/' {
        path.append("/");
    }
    path.append(rest);
    path
}

/// What is known of the process's environment: the variables that are set to text.
pub struct Environment {
    /// `HOME`
    pub home: Option<String>,
    /// `KOKORO_HOME`
    pub kokoro_home: Option<String>,
    /// `KOKORO_MODEL`
    pub model: Option<String>,
    /// `KOKORO_VOICES`
    pub voices: Option<String>,
    /// `ORT_DYLIB_PATH`
    pub runtime: Option<String>,
}

/// The contents of a variable, if it is set.
pub open spec fn set_to(value: Option<String>) -> Option<Seq<char>> {
    match value {
        Some(text) => Some(text@),
        None => None,
    }
}

/// The directory that assets are kept in: what `KOKORO_HOME` says, or a place in the
/// user's cache.
pub open spec fn cache_path(env: Environment) -> Seq<char> {
    match set_to(env.kokoro_home) {
        Some(dir) => dir,
        None => joined_path(
            joined_path(
                match set_to(env.home) {
                    Some(home) => home,
                    None => "."@,
                },
                ".cache"@,
            ),
            "kokoro-rs"@,
        ),
    }
}

/// The directory that assets are kept in.
pub fn cache_dir(env: &Environment) -> (r: String)
    ensures
        r@ == cache_path(*env),
{
    if let Some(dir) = &env.kokoro_home {
        return dir.clone();
    }
    let home = match &env.home {
        Some(home) => home.clone(),
        None => ".".to_owned(),
    };
    join_path(&join_path(&home, ".cache"), "kokoro-rs")
}

/// `path` with the user's home directory in place of a leading tilde, where that
/// directory is known.
pub open spec fn expanded(path: Seq<char>, home: Option<Seq<char>>) -> Seq<char> {
    if path.len() >= 2 && path[0] == '~' && path[1] == '/' {
        match home {
            Some(dir) => joined_path(dir, path.skip(2)),
            None => path,
        }
    } else {
        path
    }
}

/// `path` with the user's home directory in place of a leading tilde.
pub fn expand_tilde(path: &str, env: &Environment) -> (r: String)
    ensures
        r@ == expanded(path@, set_to(env.home)),
{
    let s = to_chars(path);
    if s.len() >= 2 && s[0] == '~' && s[1] == '/' {
        if let Some(home) = &env.home {
            let rest = substring(&s, 2, s.len());
            assert(rest@ =~= path@.skip(2));
            return join_path(home, &rest);
        }
    }
    path.to_owned()
}

/// A file that is looked for, and fetched where it is missing.
#[derive(Debug, Clone, Copy, PartialEq, Eq, Structural)]
pub enum Asset {
    Model,
    Voices,
    /// The ONNX Runtime shared library.
    Runtime(Platform),
}

impl Asset {
    /// The environment variable that can say where the file is.
    pub open spec fn variable_of(self) -> Seq<char> {
        match self {
            Asset::Model => "KOKORO_MODEL"@,
            Asset::Voices => "KOKORO_VOICES"@,
            Asset::Runtime(_) => "ORT_DYLIB_PATH"@,
        }
    }

    /// What the environment says of where the file is.
    pub open spec fn set_in(self, env: Environment) -> Option<Seq<char>> {
        match self {
            Asset::Model => set_to(env.model),
            Asset::Voices => set_to(env.voices),
            Asset::Runtime(_) => set_to(env.runtime),
        }
    }

    /// The file's name in the cache directory.
    pub open spec fn file_of(self) -> Seq<char> {
        match self {
            Asset::Model => MODEL_FILE@,
            Asset::Voices => VOICES_FILE@,
            Asset::Runtime(platform) => lib_name(platform),
        }
    }

    /// Where the file, or the archive that holds it, is published.
    pub open spec fn url_of(self) -> Seq<char> {
        match self {
            Asset::Model => RELEASE@ + "/"@ + MODEL_FILE@,
            Asset::Voices => RELEASE@ + "/"@ + VOICES_FILE@,
            Asset::Runtime(platform) => ORT_RELEASES@ + "/v"@ + ORT_VERSION@ + "/onnxruntime-"@
                + platform.tag_of() + "-"@ + ORT_VERSION@ + ".tgz"@,
        }
    }

    /// Where a missing file comes from.
    pub open spec fn source_of(self) -> Seq<char> {
        match self {
            Asset::Runtime(_) => "it is unpacked from the ONNX Runtime "@ + ORT_VERSION@
                + " release"@,
            _ => "download it from "@ + self.url_of(),
        }
    }

    /// The environment variable that can say where the file is.
    pub fn variable(&self) -> (r: &'static str)
        ensures
            r@ == self.variable_of(),
    {
        match self {
            Asset::Model => "KOKORO_MODEL",
            Asset::Voices => "KOKORO_VOICES",
            Asset::Runtime(_) => "ORT_DYLIB_PATH",
        }
    }

    /// The file's name in the cache directory.
    pub fn file_name(&self) -> (r: String)
        ensures
            r@ == self.file_of(),
    {
        match self {
            Asset::Model => MODEL_FILE.to_owned(),
            Asset::Voices => VOICES_FILE.to_owned(),
            Asset::Runtime(platform) => ort_lib_name(*platform),
        }
    }

    /// Where the file, or the archive that holds it, is published.
    pub fn url(&self) -> (r: String)
        ensures
            r@ == self.url_of(),
    {
        match self {
            Asset::Model => {
                let mut url = RELEASE.to_owned();
                url.append("/");
                url.append(MODEL_FILE);
                url
            },
            Asset::Voices => {
                let mut url = RELEASE.to_owned();
                url.append("/");
                url.append(VOICES_FILE);
                url
            },
            Asset::Runtime(platform) => {
                let mut url = ORT_RELEASES.to_owned();
                url.append("/v");
                url.append(ORT_VERSION);
                url.append("/onnxruntime-");
                url.append(platform.tag());
                url.append("-");
                url.append(ORT_VERSION);
                url.append(".tgz");
                url
            },
        }
    }

    /// Where a missing file comes from.
    fn source(&self) -> (r: String)
        ensures
            r@ == self.source_of(),
    {
        match self {
            Asset::Runtime(_) => {
                let mut text = "it is unpacked from the ONNX Runtime ".to_owned();
                text.append(ORT_VERSION);
                text.append(" release");
                text
            },
            _ => {
                let mut text = "download it from ".to_owned();
                text.append(&self.url());
                text
            },
        }
    }

    /// Where the file is looked for: where the environment says, or in the cache.
    pub open spec fn path_in(self, env: Environment) -> Seq<char> {
        match self.set_in(env) {
            Some(path) => expanded(path, set_to(env.home)),
            None => joined_path(cache_path(env), self.file_of()),
        }
    }

    /// Where the file is looked for, and whether the environment says so.
    pub fn path(&self, env: &Environment) -> (r: (String, bool))
        ensures
            r.0@ == self.path_in(*env),
            r.1 == self.set_in(*env) is Some,
    {
        let set = match self {
            Asset::Model => &env.model,
            Asset::Voices => &env.voices,
            Asset::Runtime(_) => &env.runtime,
        };
        match set {
            Some(path) => (expand_tilde(path, env), true),
            None => (join_path(&cache_dir(env), &self.file_name()), false),
        }
    }

    /// What is said where the environment names a file that is not there.
    pub open spec fn absent_text(self, path: Seq<char>) -> Seq<char> {
        self.variable_of() + "="@ + path + " does not exist"@
    }

    /// What is said of a missing file that may not be fetched.
    pub open spec fn missing_text(self, path: Seq<char>) -> Seq<char> {
        "missing "@ + path + "\n  "@ + self.source_of()
            + "\n  or run without --no-download to fetch it automatically"@
    }

    fn absent(&self, path: &str) -> (r: String)
        ensures
            r@ == self.absent_text(path@),
    {
        let mut text = self.variable().to_owned();
        text.append("=");
        text.append(path);
        text.append(" does not exist");
        text
    }

    fn missing(&self, path: &str) -> (r: String)
        ensures
            r@ == self.missing_text(path@),
    {
        let mut text = "missing ".to_owned();
        text.append(path);
        text.append("\n  ");
        text.append(&self.source());
        text.append("\n  or run without --no-download to fetch it automatically");
        text
    }
}

/// What is to be done about a file.
#[derive(Debug)]
pub enum Resolution {
    /// It is there, at this path.
    Ready(String),
    /// It is to be fetched from `url`, and put at `path`.
    Fetch { url: String, path: String },
    /// It cannot be had, for this reason.
    Fail(String),
}

/// The contents of a [`Resolution`].
pub enum Verdict {
    Ready(Seq<char>),
    Fetch { url: Seq<char>, path: Seq<char> },
    Fail(Seq<char>),
}

impl View for Resolution {
    type V = Verdict;

    open spec fn view(&self) -> Verdict {
        match self {
            Resolution::Ready(path) => Verdict::Ready(path@),
            Resolution::Fetch { url, path } => Verdict::Fetch { url: url@, path: path@ },
            Resolution::Fail(message) => Verdict::Fail(message@),
        }
    }
}

/// What is to be done about a file: nothing where it is there. One that the
/// environment names is never fetched, and none is unless that is allowed.
pub open spec fn verdict(asset: Asset, env: Environment, there: bool, download: bool) -> Verdict {
    let path = asset.path_in(env);
    if there {
        Verdict::Ready(path)
    } else if asset.set_in(env) is Some {
        Verdict::Fail(asset.absent_text(path))
    } else if !download {
        Verdict::Fail(asset.missing_text(path))
    } else {
        Verdict::Fetch { url: asset.url_of(), path }
    }
}

/// What is to be done about a file, `there` saying whether it is where it is looked
/// for. What is to be fetched, the caller fetches.
pub fn resolve(asset: Asset, env: &Environment, there: bool, download: bool) -> (r: Resolution)
    ensures
        r@ == verdict(asset, *env, there, download),
{
    let (path, named) = asset.path(env);
    if there {
        Resolution::Ready(path)
    } else if named {
        Resolution::Fail(asset.absent(&path))
    } else if !download {
        Resolution::Fail(asset.missing(&path))
    } else {
        Resolution::Fetch { url: asset.url(), path }
    }
}

/// A file to be fetched, and where it is to be put.
#[derive(Debug, PartialEq, Eq)]
pub struct Fetch {
    pub url: String,
    pub path: String,
}

/// The contents of a [`Fetch`].
pub struct Order {
    pub url: Seq<char>,
    pub path: Seq<char>,
}

impl View for Fetch {
    type V = Order;

    open spec fn view(&self) -> Order {
        Order { url: self.url@, path: self.path@ }
    }
}

/// The contents of a list of files to be fetched.
pub open spec fn orders(list: Seq<Fetch>) -> Seq<Order> {
    Seq::new(list.len(), |i: int| list[i]@)
}

/// What is to be done about the model's files: what is to be fetched, in this order, and
/// what there is then, or why there is not.
#[derive(Debug)]
pub struct ModelFiles {
    pub fetches: Vec<Fetch>,
    /// The paths of the model and of its voices.
    pub paths: Result<(String, String), String>,
}

/// The contents of a [`ModelFiles`].
#[verifier::ext_equal]
pub struct Plan {
    pub fetches: Seq<Order>,
    pub paths: Result<(Seq<char>, Seq<char>), Seq<char>>,
}

impl View for ModelFiles {
    type V = Plan;

    open spec fn view(&self) -> Plan {
        Plan {
            fetches: orders(self.fetches@),
            paths: match self.paths {
                Ok((model, voices)) => Ok((model@, voices@)),
                Err(message) => Err(message@),
            },
        }
    }
}

/// What a verdict has fetched.
pub open spec fn fetched(v: Verdict) -> Seq<Order> {
    match v {
        Verdict::Fetch { url, path } => seq![Order { url, path }],
        _ => Seq::empty(),
    }
}

/// What is to be done about the model's files. The voices are not looked at where the
/// model cannot be had.
pub open spec fn plan(
    env: Environment,
    model_there: bool,
    voices_there: bool,
    download: bool,
) -> Plan {
    let model = verdict(Asset::Model, env, model_there, download);
    let voices = verdict(Asset::Voices, env, voices_there, download);
    match model {
        Verdict::Fail(message) => Plan { fetches: Seq::empty(), paths: Err(message) },
        _ => match voices {
            Verdict::Fail(message) => Plan { fetches: fetched(model), paths: Err(message) },
            _ => Plan {
                fetches: fetched(model) + fetched(voices),
                paths: Ok((Asset::Model.path_in(env), Asset::Voices.path_in(env))),
            },
        },
    }
}

/// What is to be done to have the model and its voices, which are downloaded on first
/// use; `model_there` and `voices_there` say whether they are where they are looked for.
pub fn resolve_model_files(
    env: &Environment,
    model_there: bool,
    voices_there: bool,
    download: bool,
) -> (r: ModelFiles)
    ensures
        r@ == plan(*env, model_there, voices_there, download),
{
    let mut fetches: Vec<Fetch> = Vec::new();
    let model = match resolve(Asset::Model, env, model_there, download) {
        Resolution::Fail(message) => {
            assert(orders(fetches@) =~= Seq::empty());
            return ModelFiles { fetches, paths: Err(message) };
        },
        Resolution::Ready(path) => path,
        Resolution::Fetch { url, path } => {
            fetches.push(Fetch { url, path: path.clone() });
            path
        },
    };
    let ghost before = orders(fetches@);
    assert(before =~= fetched(verdict(Asset::Model, *env, model_there, download)));
    let voices = match resolve(Asset::Voices, env, voices_there, download) {
        Resolution::Fail(message) => {
            return ModelFiles { fetches, paths: Err(message) };
        },
        Resolution::Ready(path) => path,
        Resolution::Fetch { url, path } => {
            fetches.push(Fetch { url, path: path.clone() });
            path
        },
    };
    assert(orders(fetches@) =~= before + fetched(
        verdict(Asset::Voices, *env, voices_there, download),
    ));
    ModelFiles { fetches, paths: Ok((model, voices)) }
}

/// What is to be done to have the ONNX Runtime shared library. One that the environment
/// names is used as it is.
pub fn ensure_onnxruntime(
    platform: Platform,
    env: &Environment,
    there: bool,
    download: bool,
) -> (r: Resolution)
    ensures
        r@ == verdict(Asset::Runtime(platform), *env, there, download),
{
    resolve(Asset::Runtime(platform), env, there, download)
}

/// A file is fetched exactly where it is missing, the environment does not name it and
/// fetching is allowed.
pub proof fn nothing_is_fetched_unasked(asset: Asset, env: Environment, there: bool, download: bool)
    ensures
        verdict(asset, env, there, download) is Fetch <==> download && !there && asset.set_in(
            env,
        ) is None,
{
}

/// Without leave to download, nothing is fetched, and the model's files are had exactly
/// where both are there. With it or without, what is had is at the paths looked at, and a
/// file that the environment names but that is not there is neither fetched nor looked
/// for elsewhere.
pub proof fn model_files_are_had_as_asked(
    env: Environment,
    model_there: bool,
    voices_there: bool,
    download: bool,
)
    ensures
        ({
            let r = plan(env, model_there, voices_there, download);
            &&& !download ==> r.fetches.len() == 0 && (r.paths is Ok <==> model_there
                && voices_there)
            &&& r.paths matches Ok(paths) ==> paths == (
                Asset::Model.path_in(env),
                Asset::Voices.path_in(env),
            )
            &&& !model_there && env.model is Some ==> r.paths is Err && r.fetches.len() == 0
            &&& !voices_there && env.voices is Some ==> r.paths is Err && forall|k: int|
                0 <= k < r.fetches.len() ==> (#[trigger] r.fetches[k]).url == Asset::Model.url_of()
        }),
{
}

} // verus!
