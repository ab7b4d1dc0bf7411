//! The daemon's configuration, the layout of model directories, and requests with a header line
//! and framed audio.
use vstd::prelude::*;
use vstd::slice::*;
use vstd::string::*;
use vstd::utf8::*;

use crate::float_bits::F32;
use crate::text::{
    chars_of, decode_text, quoted, quoted_text, same_text, with_text,
};
use crate::wire::{le32_value, read_le32};

verus! {

/// Where models are looked for.
pub const DEFAULT_MODEL_ROOT: &'static str = "/usr/share/rkwhisper";
/// The environment variable that names another place.
pub const MODEL_ROOT_ENV: &'static str = "RKWHISPER_MODEL_ROOT";
/// Where the daemon listens.
pub const DEFAULT_SOCKET_PATH: &'static str = "/run/rkwhisper/asr.sock";
/// Where the configuration is.
pub const DEFAULT_CONFIG_PATH: &'static str = "/etc/rkwhisper.toml";
/// The longest header line.
pub const MAX_HEADER_BYTES: usize = 65_536;

////////////////////////////////////////////////////////////////////////////////
// Configuration
////////////////////////////////////////////////////////////////////////////////

/// How much work the daemon takes on.
#[derive(Clone, Copy, Debug, PartialEq, Eq, Structural)]
pub struct ConcurrencyConfig {
    pub model_queue_depth: usize,
    pub max_active_jobs_per_model: usize,
    pub max_in_flight_windows_per_job: usize,
    pub client_window_queue_depth: usize,
    pub client_response_queue_depth: usize,
}

/// The daemon's configuration.
#[derive(Clone, Debug)]
pub struct DaemonConfig {
    pub models: Vec<String>,
    pub concurrency: ConcurrencyConfig,
}

/// Jobs that wait for a model.
pub fn default_model_queue_depth() -> (n: usize)
    ensures
        n == 1,
{
    1
}

/// Jobs of a model that run at once.
pub fn default_max_active_jobs_per_model() -> (n: usize)
    ensures
        n == 1,
{
    1
}

/// Windows of a job that are transcribed at once.
pub fn default_max_in_flight_windows_per_job() -> (n: usize)
    ensures
        n == 1,
{
    1
}

/// Pieces of audio that wait for a job.
pub fn default_client_window_queue_depth() -> (n: usize)
    ensures
        n == 4,
{
    4
}

/// Responses that wait for a client.
pub fn default_client_response_queue_depth() -> (n: usize)
    ensures
        n == 16,
{
    16
}

impl Default for ConcurrencyConfig {
    fn default() -> (config: ConcurrencyConfig)
        ensures
            config == (ConcurrencyConfig {
                model_queue_depth: 1,
                max_active_jobs_per_model: 1,
                max_in_flight_windows_per_job: 1,
                client_window_queue_depth: 4,
                client_response_queue_depth: 16,
            }),
    {
        ConcurrencyConfig {
            model_queue_depth: default_model_queue_depth(),
            max_active_jobs_per_model: default_max_active_jobs_per_model(),
            max_in_flight_windows_per_job: default_max_in_flight_windows_per_job(),
            client_window_queue_depth: default_client_window_queue_depth(),
            client_response_queue_depth: default_client_response_queue_depth(),
        }
    }
}

/// The numbers of the configuration that must not be zero.
#[derive(Clone, Copy, Debug, PartialEq, Eq, Structural)]
pub enum Limit {
    ModelQueueDepth,
    MaxActiveJobsPerModel,
    MaxInFlightWindowsPerJob,
    ClientWindowQueueDepth,
    ClientResponseQueueDepth,
}

/// The first limit that is zero.
pub open spec fn zero_limit(config: ConcurrencyConfig) -> Option<Limit> {
    if config.model_queue_depth == 0 {
        Some(Limit::ModelQueueDepth)
    } else if config.max_active_jobs_per_model == 0 {
        Some(Limit::MaxActiveJobsPerModel)
    } else if config.max_in_flight_windows_per_job == 0 {
        Some(Limit::MaxInFlightWindowsPerJob)
    } else if config.client_window_queue_depth == 0 {
        Some(Limit::ClientWindowQueueDepth)
    } else if config.client_response_queue_depth == 0 {
        Some(Limit::ClientResponseQueueDepth)
    } else {
        None
    }
}

/// Checks that no limit is zero, and names the first that is.
pub fn validate_concurrency_config(config: &ConcurrencyConfig) -> (out: Result<(), Limit>)
    ensures
        out == (match zero_limit(*config) {
            Some(limit) => Err(limit),
            None => Ok(()),
        }),
{
    if config.model_queue_depth == 0 {
        return Err(Limit::ModelQueueDepth);
    }
    if config.max_active_jobs_per_model == 0 {
        return Err(Limit::MaxActiveJobsPerModel);
    }
    if config.max_in_flight_windows_per_job == 0 {
        return Err(Limit::MaxInFlightWindowsPerJob);
    }
    if config.client_window_queue_depth == 0 {
        return Err(Limit::ClientWindowQueueDepth);
    }
    if config.client_response_queue_depth == 0 {
        return Err(Limit::ClientResponseQueueDepth);
    }
    Ok(())
}

/// The supported models.
#[derive(Clone, Copy, Debug, PartialEq, Eq, Structural)]
pub enum ModelKind {
    Tiny,
    Base,
    Small,
    Medium,
    LargeV3Turbo,
}

/// True of the characters of model ids: ASCII letters, digits, `-` and `_`.
pub open spec fn is_id_char(c: char) -> bool {
    ||| 48 <= c as u32 <= 57
    ||| 65 <= c as u32 <= 90
    ||| 97 <= c as u32 <= 122
    ||| c as u32 == 45
    ||| c as u32 == 95
}

/// True of model ids: they are not empty and hold nothing but such characters.
pub open spec fn is_model_id(id: Seq<char>) -> bool {
    id.len() > 0 && forall|i: int| 0 <= i < id.len() ==> is_id_char(#[trigger] id[i])
}

/// Whether a text is a model id.
pub fn validate_model_id(model_id: &str) -> (valid: bool)
    ensures
        valid == is_model_id(model_id@),
{
    let chars = chars_of(model_id);
    if chars.len() == 0 {
        return false;
    }
    let mut i: usize = 0;
    while i < chars.len()
        invariant
            i <= chars@.len(),
            chars@ == model_id@,
            forall|j: int| 0 <= j < i ==> is_id_char(#[trigger] model_id@[j]),
        decreases chars@.len() - i,
    {
        let c: u32 = chars[i] as u32;
        if !((48 <= c && c <= 57) || (65 <= c && c <= 90) || (97 <= c && c <= 122) || c == 45 || c
            == 95) {
            assert(!is_id_char(model_id@[i as int]));
            return false;
        }
        i = i + 1;
    }
    true
}

/// A model id without `-30s` at its end.
pub open spec fn base_name(id: Seq<char>) -> Seq<char> {
    if id.len() >= 4 && id.skip(id.len() - 4) == "-30s"@ {
        id.take(id.len() - 4)
    } else {
        id
    }
}

/// The model that an id stands for.
pub open spec fn kind_of(id: Seq<char>) -> Option<ModelKind> {
    let name = base_name(id);
    if name == "whisper-tiny"@ {
        Some(ModelKind::Tiny)
    } else if name == "whisper-base"@ {
        Some(ModelKind::Base)
    } else if name == "whisper-small"@ {
        Some(ModelKind::Small)
    } else if name == "whisper-medium"@ {
        Some(ModelKind::Medium)
    } else if name == "whisper-large-v3-turbo"@ {
        Some(ModelKind::LargeV3Turbo)
    } else {
        None
    }
}

/// The model that an id stands for.
pub fn model_kind(model_id: &str) -> (kind: Option<ModelKind>)
    ensures
        kind == kind_of(model_id@),
{
    let n: usize = model_id.unicode_len();
    let mut name: &str = model_id;
    if n >= 4 {
        let tail = model_id.substring_char(n - 4, n);
        proof {
            assert(tail@ =~= model_id@.skip(n - 4));
        }
        if same_text(tail, "-30s") {
            name = model_id.substring_char(0, n - 4);
            assert(name@ =~= model_id@.take(n - 4));
        }
    }
    if same_text(name, "whisper-tiny") {
        Some(ModelKind::Tiny)
    } else if same_text(name, "whisper-base") {
        Some(ModelKind::Base)
    } else if same_text(name, "whisper-small") {
        Some(ModelKind::Small)
    } else if same_text(name, "whisper-medium") {
        Some(ModelKind::Medium)
    } else if same_text(name, "whisper-large-v3-turbo") {
        Some(ModelKind::LargeV3Turbo)
    } else {
        None
    }
}

/// Why a configuration is refused.
#[derive(Debug)]
pub enum ConfigError {
    /// It lists no model.
    NoModels,
    /// A limit is zero.
    ZeroLimit { limit: Limit },
    /// An entry is not a model id.
    InvalidModelId,
    /// An entry stands for no supported model.
    UnsupportedModelId { id: String },
    /// An entry is listed twice.
    DuplicateModelId { id: String },
}

impl ConfigError {
    /// What the error says.
    pub open spec fn spec_message(&self) -> Seq<char> {
        match *self {
            ConfigError::NoModels => "config must list at least one model"@,
            ConfigError::ZeroLimit { limit } => match limit {
                Limit::ModelQueueDepth => "concurrency.model_queue_depth must be at least 1"@,
                Limit::MaxActiveJobsPerModel =>
                    "concurrency.max_active_jobs_per_model must be at least 1"@,
                Limit::MaxInFlightWindowsPerJob =>
                    "concurrency.max_in_flight_windows_per_job must be at least 1"@,
                Limit::ClientWindowQueueDepth =>
                    "concurrency.client_window_queue_depth must be at least 1"@,
                Limit::ClientResponseQueueDepth =>
                    "concurrency.client_response_queue_depth must be at least 1"@,
            },
            ConfigError::InvalidModelId => "invalid model id"@,
            ConfigError::UnsupportedModelId { id } => "unsupported model id: "@ + id@,
            ConfigError::DuplicateModelId { id } => "duplicate model id: "@ + id@,
        }
    }

    /// What the error says.
    pub fn message(&self) -> (text: String)
        ensures
            text@ == self.spec_message(),
    {
        match self {
            ConfigError::NoModels => "config must list at least one model".to_string(),
            ConfigError::ZeroLimit { limit } => match *limit {
                Limit::ModelQueueDepth =>
                    "concurrency.model_queue_depth must be at least 1".to_string(),
                Limit::MaxActiveJobsPerModel =>
                    "concurrency.max_active_jobs_per_model must be at least 1".to_string(),
                Limit::MaxInFlightWindowsPerJob =>
                    "concurrency.max_in_flight_windows_per_job must be at least 1".to_string(),
                Limit::ClientWindowQueueDepth =>
                    "concurrency.client_window_queue_depth must be at least 1".to_string(),
                Limit::ClientResponseQueueDepth =>
                    "concurrency.client_response_queue_depth must be at least 1".to_string(),
            },
            ConfigError::InvalidModelId => "invalid model id".to_string(),
            ConfigError::UnsupportedModelId { id } => with_text(
                "unsupported model id: ",
                id.as_str(),
            ),
            ConfigError::DuplicateModelId { id } => with_text("duplicate model id: ", id.as_str()),
        }
    }
}

/// True where entry `i` of a list of models can stand: it is the id of a supported model and does
/// not occur before.
pub open spec fn entry_ok(models: Seq<String>, i: int) -> bool {
    &&& is_model_id(models[i]@)
    &&& kind_of(models[i]@) is Some
    &&& !occurs_before(models, i)
}

/// True where entry `i` of a list occurs before.
pub open spec fn occurs_before(models: Seq<String>, i: int) -> bool {
    exists|j: int| 0 <= j < i && (#[trigger] models[j])@ == models[i]@
}

/// True of the error for entry `i` of a list.
pub open spec fn entry_error(models: Seq<String>, i: int, error: ConfigError) -> bool {
    if !is_model_id(models[i]@) {
        error is InvalidModelId
    } else if kind_of(models[i]@) is None {
        error matches ConfigError::UnsupportedModelId { id } && id@ == models[i]@
    } else {
        error matches ConfigError::DuplicateModelId { id } && id@ == models[i]@
    }
}

/// True of a configuration that can be used.
pub open spec fn config_ok(config: DaemonConfig) -> bool {
    &&& config.models@.len() > 0
    &&& zero_limit(config.concurrency) is None
    &&& forall|i: int| 0 <= i < config.models@.len() ==> #[trigger] entry_ok(config.models@, i)
}

/// True where the texts at two places of a list are the same.
fn occurs(models: &Vec<String>, i: usize) -> (found: bool)
    requires
        i < models@.len(),
    ensures
        found == occurs_before(models@, i as int),
{
    let mut j: usize = 0;
    while j < i
        invariant
            j <= i < models@.len(),
            forall|k: int| 0 <= k < j ==> (#[trigger] models@[k])@ != models@[i as int]@,
        decreases i - j,
    {
        if same_text(models[j].as_str(), models[i].as_str()) {
            assert(models@[j as int]@ == models@[i as int]@);
            return true;
        }
        j = j + 1;
    }
    false
}

/// Checks a configuration: it lists at least one model, has no limit of zero, and each entry is the
/// id of a supported model that is not listed before. The first that fails is reported, in this
/// order.
pub fn validate_config(config: &DaemonConfig) -> (out: Result<(), ConfigError>)
    ensures
        out is Ok <==> config_ok(*config),
        out matches Err(e) ==> (if config.models@.len() == 0 {
            e is NoModels
        } else if zero_limit(config.concurrency) is Some {
            e == (ConfigError::ZeroLimit { limit: zero_limit(config.concurrency)->0 })
        } else {
            exists|i: int|
                0 <= i < config.models@.len() && !(#[trigger] entry_ok(config.models@, i))
                    && entry_error(config.models@, i, e) && forall|j: int|
                    0 <= j < i ==> #[trigger] entry_ok(config.models@, j)
        }),
{
    if config.models.len() == 0 {
        return Err(ConfigError::NoModels);
    }
    match validate_concurrency_config(&config.concurrency) {
        Ok(()) => {},
        Err(limit) => return Err(ConfigError::ZeroLimit { limit }),
    }
    let mut i: usize = 0;
    while i < config.models.len()
        invariant
            i <= config.models@.len(),
            config.models@.len() > 0,
            zero_limit(config.concurrency) is None,
            forall|j: int| 0 <= j < i ==> #[trigger] entry_ok(config.models@, j),
        decreases config.models@.len() - i,
    {
        let ghost bad = !entry_ok(config.models@, i as int);
        if !validate_model_id(config.models[i].as_str()) {
            assert(bad);
            return Err(ConfigError::InvalidModelId);
        }
        if model_kind(config.models[i].as_str()).is_none() {
            assert(bad);
            return Err(ConfigError::UnsupportedModelId { id: config.models[i].clone() });
        }
        if occurs(&config.models, i) {
            assert(bad);
            return Err(ConfigError::DuplicateModelId { id: config.models[i].clone() });
        }
        i = i + 1;
    }
    Ok(())
}

/// True where a configuration lists a model.
pub open spec fn lists(config: DaemonConfig, model_id: Seq<char>) -> bool {
    exists|i: int| 0 <= i < config.models@.len() && (#[trigger] config.models@[i])@ == model_id
}

/// Whether a configuration lists a model.
pub fn model_is_enabled(config: &DaemonConfig, model_id: &str) -> (enabled: bool)
    ensures
        enabled == lists(*config, model_id@),
{
    let mut i: usize = 0;
    while i < config.models.len()
        invariant
            i <= config.models@.len(),
            forall|j: int| 0 <= j < i ==> (#[trigger] config.models@[j])@ != model_id@,
        decreases config.models@.len() - i,
    {
        if same_text(config.models[i].as_str(), model_id) {
            assert(config.models@[i as int]@ == model_id@);
            return true;
        }
        i = i + 1;
    }
    false
}

////////////////////////////////////////////////////////////////////////////////
// Model directories
////////////////////////////////////////////////////////////////////////////////

/// Why a model cannot be used.
#[derive(Clone, Copy, Debug, PartialEq, Eq, Structural)]
pub enum ModelError {
    /// Its id is not one.
    InvalidModelId,
    /// There is no such model.
    NotFound,
    /// A file is missing in its directory.
    MissingFile { file: ModelFile },
}

/// The files that a model cannot do without.
#[derive(Clone, Copy, Debug, PartialEq, Eq, Structural)]
pub enum ModelFile {
    Tokenizer,
    Mel,
    Encoder,
    EncKv,
    Decoder,
}

/// The name of a file in a model's directory.
pub open spec fn file_name(file: ModelFile) -> Seq<char> {
    match file {
        ModelFile::Tokenizer => "tokenizer.json"@,
        ModelFile::Mel => "mel.rknn"@,
        ModelFile::Encoder => "encoder.rknn"@,
        ModelFile::EncKv => "enc_kv.rknn"@,
        ModelFile::Decoder => "decoder.rknn"@,
    }
}

impl ModelFile {
    /// The name of a file in a model's directory.
    pub fn name(&self) -> (name: &'static str)
        ensures
            name@ == file_name(*self),
    {
        match self {
            ModelFile::Tokenizer => "tokenizer.json",
            ModelFile::Mel => "mel.rknn",
            ModelFile::Encoder => "encoder.rknn",
            ModelFile::EncKv => "enc_kv.rknn",
            ModelFile::Decoder => "decoder.rknn",
        }
    }
}

impl ModelError {
    /// What the error says.
    pub open spec fn spec_message(&self) -> Seq<char> {
        match *self {
            ModelError::InvalidModelId => "invalid model id"@,
            ModelError::NotFound => "model not found"@,
            ModelError::MissingFile { file } => "model file missing: "@ + file_name(file),
        }
    }

    /// What the error says.
    pub fn message(&self) -> (text: String)
        ensures
            text@ == self.spec_message(),
    {
        match self {
            ModelError::InvalidModelId => "invalid model id".to_string(),
            ModelError::NotFound => "model not found".to_string(),
            ModelError::MissingFile { file } => with_text("model file missing: ", file.name()),
        }
    }
}

/// A path with a relative name behind it.
pub open spec fn joined_path(base: Seq<char>, name: Seq<char>) -> Seq<char> {
    if base.len() == 0 || base.last() == '/' {
        base + name
    } else {
        base + "/"@ + name
    }
}

/// A path with a relative name behind it.
pub fn join_path(base: &str, name: &str) -> (path: String)
    ensures
        path@ == joined_path(base@, name@),
{
    let chars = chars_of(base);
    let n: usize = chars.len();
    if n == 0 || chars[n - 1] == '/' {
        with_text(base, name)
    } else {
        with_text(with_text(base, "/").as_str(), name)
    }
}

/// The files of a model.
#[derive(Clone, Debug, PartialEq, Eq)]
pub struct ModelFiles {
    pub id: String,
    pub kind: ModelKind,
    pub dir: String,
    pub tokenizer: String,
    pub mel: String,
    pub encoder: String,
    pub enc_kv: String,
    pub decoder: String,
    pub vad: Option<String>,
}

/// What is found of a model on disk: its directory, its files, and the detector's model, which it
/// can do without.
#[derive(Clone, Copy, Debug, PartialEq, Eq, Structural)]
pub struct FoundFiles {
    pub dir: bool,
    pub tokenizer: bool,
    pub mel: bool,
    pub encoder: bool,
    pub enc_kv: bool,
    pub decoder: bool,
    pub vad: bool,
}

/// The first file that is missing.
pub open spec fn missing_file(found: FoundFiles) -> Option<ModelFile> {
    if !found.tokenizer {
        Some(ModelFile::Tokenizer)
    } else if !found.mel {
        Some(ModelFile::Mel)
    } else if !found.encoder {
        Some(ModelFile::Encoder)
    } else if !found.enc_kv {
        Some(ModelFile::EncKv)
    } else if !found.decoder {
        Some(ModelFile::Decoder)
    } else {
        None
    }
}

/// True of the files of a model below `root`.
pub open spec fn files_at(files: ModelFiles, root: Seq<char>, id: Seq<char>, kind: ModelKind, vad: bool) -> bool {
    let dir = joined_path(root, id);
    &&& files.id@ == id
    &&& files.kind == kind
    &&& files.dir@ == dir
    &&& files.tokenizer@ == joined_path(dir, "tokenizer.json"@)
    &&& files.mel@ == joined_path(dir, "mel.rknn"@)
    &&& files.encoder@ == joined_path(dir, "encoder.rknn"@)
    &&& files.enc_kv@ == joined_path(dir, "enc_kv.rknn"@)
    &&& files.decoder@ == joined_path(dir, "decoder.rknn"@)
    &&& files.vad is Some <==> vad
    &&& files.vad is Some ==> files.vad->0@ == joined_path(dir, "vad.rknn"@)
}

/// The files of a model of a kind, given what is found of them.
pub fn resolve_model_files_for_kind(root: &str, model_id: &str, kind: ModelKind, found: &FoundFiles) -> (out:
    Result<ModelFiles, ModelError>)
    ensures
        !found.dir ==> out == Err::<ModelFiles, ModelError>(ModelError::NotFound),
        found.dir ==> (match missing_file(*found) {
            Some(file) => out == Err::<ModelFiles, ModelError>(ModelError::MissingFile { file }),
            None => out is Ok && files_at(out->Ok_0, root@, model_id@, kind, found.vad),
        }),
{
    if !found.dir {
        return Err(ModelError::NotFound);
    }
    if !found.tokenizer {
        return Err(ModelError::MissingFile { file: ModelFile::Tokenizer });
    }
    if !found.mel {
        return Err(ModelError::MissingFile { file: ModelFile::Mel });
    }
    if !found.encoder {
        return Err(ModelError::MissingFile { file: ModelFile::Encoder });
    }
    if !found.enc_kv {
        return Err(ModelError::MissingFile { file: ModelFile::EncKv });
    }
    if !found.decoder {
        return Err(ModelError::MissingFile { file: ModelFile::Decoder });
    }
    let dir = join_path(root, model_id);
    let tokenizer = join_path(dir.as_str(), "tokenizer.json");
    let mel = join_path(dir.as_str(), "mel.rknn");
    let encoder = join_path(dir.as_str(), "encoder.rknn");
    let enc_kv = join_path(dir.as_str(), "enc_kv.rknn");
    let decoder = join_path(dir.as_str(), "decoder.rknn");
    let vad = if found.vad {
        Some(join_path(dir.as_str(), "vad.rknn"))
    } else {
        None
    };
    Ok(
        ModelFiles {
            id: model_id.to_string(),
            kind,
            dir,
            tokenizer,
            mel,
            encoder,
            enc_kv,
            decoder,
            vad,
        },
    )
}

/// True of the outcome of looking a model up, given what is found of it.
pub open spec fn resolution(
    out: Result<ModelFiles, ModelError>,
    root: Seq<char>,
    id: Seq<char>,
    known: bool,
    found: FoundFiles,
) -> bool {
    if !is_model_id(id) {
        out == Err::<ModelFiles, ModelError>(ModelError::InvalidModelId)
    } else if !known || kind_of(id) is None || !found.dir {
        out == Err::<ModelFiles, ModelError>(ModelError::NotFound)
    } else {
        match missing_file(found) {
            Some(file) => out == Err::<ModelFiles, ModelError>(ModelError::MissingFile { file }),
            None => out is Ok && files_at(out->Ok_0, root, id, kind_of(id)->0, found.vad),
        }
    }
}

/// The files of a model, given what is found of them below `root`.
pub fn resolve_model_files(root: &str, model_id: &str, found: &FoundFiles) -> (out: Result<
    ModelFiles,
    ModelError,
>)
    ensures
        resolution(out, root@, model_id@, true, *found),
{
    if !validate_model_id(model_id) {
        return Err(ModelError::InvalidModelId);
    }
    match model_kind(model_id) {
        Some(kind) => resolve_model_files_for_kind(root, model_id, kind, found),
        None => Err(ModelError::NotFound),
    }
}

/// The files of a model that the configuration lists, given what is found of them below `root`.
pub fn resolve_enabled_model_files(
    root: &str,
    config: &DaemonConfig,
    model_id: &str,
    found: &FoundFiles,
) -> (out: Result<ModelFiles, ModelError>)
    ensures
        resolution(out, root@, model_id@, lists(*config, model_id@), *found),
{
    if !validate_model_id(model_id) {
        return Err(ModelError::InvalidModelId);
    }
    if !model_is_enabled(config, model_id) {
        return Err(ModelError::NotFound);
    }
    match model_kind(model_id) {
        Some(kind) => resolve_model_files_for_kind(root, model_id, kind, found),
        None => Err(ModelError::NotFound),
    }
}

/// A model id never leaves the model root: it holds no separator and no dot.
pub proof fn model_ids_stay_inside(id: Seq<char>, i: int)
    requires
        is_model_id(id),
        0 <= i < id.len(),
    ensures
        id[i] != '/',
        id[i] != '.',
{
    assert(is_id_char(id[i]));
}

////////////////////////////////////////////////////////////////////////////////
// Audio
////////////////////////////////////////////////////////////////////////////////

/// Why bytes are not audio.
#[derive(Clone, Copy, Debug, PartialEq, Eq, Structural)]
pub enum PcmError {
    /// The input ends inside the length.
    LengthUnavailable,
    /// The length is negative.
    NegativeLength,
    /// The length is odd.
    OddLength,
    /// The input ends inside the samples.
    BodyUnavailable,
}

impl PcmError {
    /// What the error says.
    pub open spec fn spec_message(&self) -> Seq<char> {
        match *self {
            PcmError::LengthUnavailable => "failed to read PCM byte count"@,
            PcmError::NegativeLength => "negative PCM byte count"@,
            PcmError::OddLength => "PCM byte count must be even for s16le audio"@,
            PcmError::BodyUnavailable => "failed to read PCM body"@,
        }
    }

    /// What the error says.
    pub fn message(&self) -> (text: String)
        ensures
            text@ == self.spec_message(),
    {
        match self {
            PcmError::LengthUnavailable => "failed to read PCM byte count".to_string(),
            PcmError::NegativeLength => "negative PCM byte count".to_string(),
            PcmError::OddLength => "PCM byte count must be even for s16le audio".to_string(),
            PcmError::BodyUnavailable => "failed to read PCM body".to_string(),
        }
    }
}

/// The sample that two bytes hold, least significant first.
pub open spec fn s16le(low: u8, high: u8) -> i16 {
    (if high < 128 {
        low + 256 * high
    } else {
        low + 256 * high - 65536
    }) as i16
}

/// The samples that bytes hold.
pub open spec fn samples_of(pcm: Seq<u8>) -> Seq<i16> {
    Seq::new(pcm.len() / 2, |i: int| s16le(pcm[2 * i], pcm[2 * i + 1]))
}

/// The samples that s16le bytes hold; an odd number of bytes is refused.
pub fn pcm_s16le_samples(pcm: &[u8]) -> (out: Result<Vec<i16>, PcmError>)
    ensures
        pcm@.len() % 2 == 0 ==> out is Ok && out->Ok_0@ == samples_of(pcm@),
        pcm@.len() % 2 != 0 ==> out == Err::<Vec<i16>, PcmError>(PcmError::OddLength),
{
    if pcm.len() % 2 != 0 {
        return Err(PcmError::OddLength);
    }
    let n: usize = pcm.len() / 2;
    let mut samples: Vec<i16> = Vec::new();
    let mut i: usize = 0;
    while i < n
        invariant
            i <= n,
            n == pcm@.len() / 2,
            pcm@.len() == pcm.len(),
            samples@ == samples_of(pcm@).take(i as int),
        decreases n - i,
    {
        let low: i32 = pcm[2 * i] as i32;
        let high: i32 = pcm[2 * i + 1] as i32;
        let value: i32 = if high < 128 {
            low + 256 * high
        } else {
            low + 256 * high - 65536
        };
        samples.push(value as i16);
        i = i + 1;
        assert(samples@ =~= samples_of(pcm@).take(i as int));
    }
    assert(samples@ =~= samples_of(pcm@));
    Ok(samples)
}

/// The length that four bytes of a frame hold, as a signed number.
pub open spec fn pcm_length(header: Seq<u8>) -> int {
    let value = le32_value(header) as int;
    if value < 0x8000_0000 {
        value
    } else {
        value - 0x1_0000_0000
    }
}

/// The number of bytes that follow a frame's length; `None` where it is zero, which ends the audio.
pub fn pcm_frame_length(header: &[u8]) -> (out: Result<Option<usize>, PcmError>)
    requires
        header@.len() == 4,
    ensures
        ({
            let len = pcm_length(header@);
            out == (if len < 0 {
                Err(PcmError::NegativeLength)
            } else if len == 0 {
                Ok(None)
            } else if len % 2 != 0 {
                Err(PcmError::OddLength)
            } else {
                Ok(Some(len as usize))
            })
        }),
{
    let value: u32 = read_le32(header);
    if value >= 0x8000_0000 {
        return Err(PcmError::NegativeLength);
    }
    if value == 0 {
        return Ok(None);
    }
    if value % 2 != 0 {
        return Err(PcmError::OddLength);
    }
    Ok(Some(value as usize))
}

/// The samples of the frame that `input` begins with and what follows it; no samples where the
/// input is at its end or the frame is empty.
pub open spec fn pcm_unframed(input: Seq<u8>) -> Result<(Option<Seq<i16>>, Seq<u8>), PcmError> {
    if input.len() == 0 {
        Ok((None, input))
    } else if input.len() < 4 {
        Err(PcmError::LengthUnavailable)
    } else {
        let len = pcm_length(input.take(4));
        if len < 0 {
            Err(PcmError::NegativeLength)
        } else if len == 0 {
            Ok((None, input.skip(4)))
        } else if len % 2 != 0 {
            Err(PcmError::OddLength)
        } else if input.len() < 4 + len {
            Err(PcmError::BodyUnavailable)
        } else {
            Ok((Some(samples_of(input.subrange(4, 4 + len))), input.skip(4 + len)))
        }
    }
}

/// Takes a frame of audio from the front of a stream of bytes.
pub fn read_pcm_frame(reader: &mut &[u8]) -> (out: Result<Option<Vec<i16>>, PcmError>)
    ensures
        match pcm_unframed(old(reader)@) {
            Ok((Some(samples), rest)) => (out matches Ok(Some(audio)) && audio@ == samples) && final(reader)@ == rest,
            Ok((None, rest)) => out == Ok::<Option<Vec<i16>>, PcmError>(None) && final(reader)@
                == rest,
            Err(e) => out == Err::<Option<Vec<i16>>, PcmError>(e),
        },
{
    let input: &[u8] = *reader;
    if input.len() == 0 {
        return Ok(None);
    }
    if input.len() < 4 {
        return Err(PcmError::LengthUnavailable);
    }
    let header: &[u8] = slice_subrange(input, 0, 4);
    assert(header@ =~= input@.take(4));
    let rest: &[u8] = slice_subrange(input, 4, input.len());
    assert(rest@ =~= input@.skip(4));
    match pcm_frame_length(header) {
        Err(e) => Err(e),
        Ok(None) => {
            *reader = rest;
            Ok(None)
        },
        Ok(Some(len)) => {
            if rest.len() < len {
                return Err(PcmError::BodyUnavailable);
            }
            let body: &[u8] = slice_subrange(rest, 0, len);
            assert(body@ =~= input@.subrange(4, 4 + len));
            *reader = slice_subrange(rest, len, rest.len());
            assert(reader@ =~= input@.skip(4 + len));
            match pcm_s16le_samples(body) {
                Ok(samples) => Ok(Some(samples)),
                Err(e) => Err(e),
            }
        },
    }
}

////////////////////////////////////////////////////////////////////////////////
// Requests
////////////////////////////////////////////////////////////////////////////////

/// The mode of a request that names none.
pub fn default_mode() -> (mode: String)
    ensures
        mode@ == "batch"@,
{
    "batch".to_string()
}

/// The language of a request that names none.
pub fn default_lang() -> (lang: String)
    ensures
        lang@ == "en"@,
{
    "en".to_string()
}

/// The task of a request that names none.
pub fn default_task() -> (task: String)
    ensures
        task@ == "transcribe"@,
{
    "transcribe".to_string()
}

/// How many tokens a request that does not say so generates at most.
pub fn default_max_new_tokens() -> (n: usize)
    ensures
        n == 128,
{
    128
}

/// How many beams a request that does not say so has.
pub fn default_beam_size() -> (n: usize)
    ensures
        n == 5,
{
    5
}

/// The suppression mode of a request that names none.
pub fn default_suppress_tokens() -> (mode: String)
    ensures
        mode@ == "default"@,
{
    "default".to_string()
}

/// What a request asks for.
#[derive(Clone, Debug)]
pub struct RequestHeader {
    pub model: String,
    pub mode: String,
    pub lang: String,
    pub task: String,
    pub max_new_tokens: usize,
    pub beam_size: usize,
    pub notimestamps: bool,
    pub suppress_tokens: String,
    pub vad_threshold: Option<F32>,
    pub vad_min_speech_ms: Option<u32>,
    pub vad_min_silence_ms: Option<u32>,
    pub vad_speech_pad_ms: Option<u32>,
    pub vad_window_samples: Option<usize>,
}

/// A request with its audio.
#[derive(Clone, Debug)]
pub struct DaemonRequest {
    pub header: RequestHeader,
    pub audio: Vec<i16>,
}

/// Why a request is refused.
#[derive(Debug)]
pub enum RequestError {
    /// The input ends before the header line does.
    HeaderClosed,
    /// The header line is longer than `MAX_HEADER_BYTES`.
    HeaderTooLong,
    /// The header line is not UTF-8.
    HeaderNotUtf8,
    /// The mode is neither batch nor stream.
    UnsupportedMode { mode: String },
    /// No beam was asked for.
    ZeroBeamSize,
    /// There is no audio.
    EmptyAudio,
    /// The audio is not audio.
    Pcm { error: PcmError },
}

impl RequestError {
    /// What the error says.
    pub open spec fn spec_message(&self) -> Seq<char> {
        match *self {
            RequestError::HeaderClosed => "connection closed before JSON header newline"@,
            RequestError::HeaderTooLong => "JSON header exceeds 65536 bytes"@,
            RequestError::HeaderNotUtf8 => "JSON header is not valid UTF-8"@,
            RequestError::UnsupportedMode { mode } => "unsupported mode "@ + quoted(mode@),
            RequestError::ZeroBeamSize => "beam_size must be at least 1"@,
            RequestError::EmptyAudio => "empty audio"@,
            RequestError::Pcm { error } => error.spec_message(),
        }
    }

    /// What the error says.
    pub fn message(&self) -> (text: String)
        ensures
            text@ == self.spec_message(),
    {
        match self {
            RequestError::HeaderClosed => "connection closed before JSON header newline".to_string(),
            RequestError::HeaderTooLong => "JSON header exceeds 65536 bytes".to_string(),
            RequestError::HeaderNotUtf8 => "JSON header is not valid UTF-8".to_string(),
            RequestError::UnsupportedMode { mode } => with_text(
                "unsupported mode ",
                quoted_text(mode.as_str()).as_str(),
            ),
            RequestError::ZeroBeamSize => "beam_size must be at least 1".to_string(),
            RequestError::EmptyAudio => "empty audio".to_string(),
            RequestError::Pcm { error } => error.message(),
        }
    }
}

/// The length of a header line: where the first newline stands, or all there is.
pub open spec fn line_len(input: Seq<u8>) -> int
    decreases input.len(),
{
    if input.len() == 0 || input[0] == 10 {
        0
    } else {
        1 + line_len(input.drop_first())
    }
}

/// The header line that `input` begins with, and what follows its newline.
pub open spec fn header_line(input: Seq<u8>) -> Result<(Seq<char>, Seq<u8>), RequestError> {
    let n = line_len(input);
    if n > MAX_HEADER_BYTES {
        Err(RequestError::HeaderTooLong)
    } else if n == input.len() {
        Err(RequestError::HeaderClosed)
    } else if !valid_utf8(input.take(n)) {
        Err(RequestError::HeaderNotUtf8)
    } else {
        Ok((decode_utf8(input.take(n)), input.skip(n + 1)))
    }
}

proof fn lemma_line_len(input: Seq<u8>, n: int)
    requires
        0 <= n <= input.len(),
        forall|i: int| 0 <= i < n ==> input[i] != 10,
    ensures
        n < input.len() && input[n] == 10 ==> line_len(input) == n,
        n == input.len() ==> line_len(input) == n,
        line_len(input) >= n,
    decreases n,
{
    if n > 0 {
        let rest = input.drop_first();
        assert forall|i: int| 0 <= i < n - 1 implies rest[i] != 10 by {
            assert(rest[i] == input[i + 1]);
        }
        lemma_line_len(rest, n - 1);
    } else {
        lemma_line_len_bounds(input);
    }
}

proof fn lemma_line_len_bounds(input: Seq<u8>)
    ensures
        0 <= line_len(input) <= input.len(),
    decreases input.len(),
{
    if input.len() > 0 && input[0] != 10 {
        lemma_line_len_bounds(input.drop_first());
    }
}

/// A header line that is read byte by byte.
#[derive(Debug)]
pub struct HeaderLine {
    pub bytes: Vec<u8>,
}

impl HeaderLine {
    /// Nothing has been read.
    pub fn new() -> (line: HeaderLine)
        ensures
            line.bytes@ == Seq::<u8>::empty(),
    {
        HeaderLine { bytes: Vec::new() }
    }

    /// Takes a byte, and tells whether it ends the line. A line that gets too long is refused.
    pub fn push(&mut self, byte: u8) -> (out: Result<bool, RequestError>)
        ensures
            byte == 10 ==> out == Ok::<bool, RequestError>(true) && final(self).bytes == old(self).bytes,
            byte != 10 ==> final(self).bytes@ == old(self).bytes@.push(byte) && out == (if old(self).bytes@.len() + 1 > MAX_HEADER_BYTES {
                Err(RequestError::HeaderTooLong)
            } else {
                Ok(false)
            }),
    {
        if byte == 10 {
            return Ok(true);
        }
        self.bytes.push(byte);
        if self.bytes.len() > MAX_HEADER_BYTES {
            return Err(RequestError::HeaderTooLong);
        }
        Ok(false)
    }

    /// The text of the line.
    pub fn text(&self) -> (out: Result<String, RequestError>)
        ensures
            valid_utf8(self.bytes@) ==> out is Ok && out->Ok_0@ == decode_utf8(self.bytes@),
            !valid_utf8(self.bytes@) ==> out == Err::<String, RequestError>(
                RequestError::HeaderNotUtf8,
            ),
    {
        match decode_text(self.bytes.as_slice()) {
            Some(text) => Ok(text),
            None => Err(RequestError::HeaderNotUtf8),
        }
    }
}

/// Takes a header line from the front of a stream of bytes.
pub fn read_header_line(reader: &mut &[u8]) -> (out: Result<String, RequestError>)
    ensures
        match header_line(old(reader)@) {
            Ok((text, rest)) => out is Ok && out->Ok_0@ == text && final(reader)@ == rest,
            Err(e) => out == Err::<String, RequestError>(e),
        },
{
    let input: &[u8] = *reader;
    let mut line = HeaderLine::new();
    let mut i: usize = 0;
    assert(input@.take(0) =~= Seq::<u8>::empty());
    while i < input.len()
        invariant
            i <= input@.len(),
            i <= MAX_HEADER_BYTES,
            input@ == old(reader)@,
            line.bytes@ == input@.take(i as int),
            forall|j: int| 0 <= j < i ==> input@[j] != 10,
        decreases input@.len() - i,
    {
        let byte: u8 = input[i];
        proof {
            lemma_line_len(input@, i as int);
            if byte != 10 {
                lemma_line_len(input@, i + 1);
            }
            assert(input@.take(i + 1) =~= input@.take(i as int).push(byte));
        }
        match line.push(byte) {
            Err(e) => return Err(e),
            Ok(true) => {
                *reader = slice_subrange(input, i + 1, input.len());
                assert(reader@ =~= input@.skip(i + 1));
                return line.text();
            },
            Ok(false) => {},
        }
        i = i + 1;
    }
    proof {
        lemma_line_len(input@, i as int);
    }
    Err(RequestError::HeaderClosed)
}

/// True of the two modes.
pub open spec fn request_mode(mode: Seq<char>) -> bool {
    mode == "batch"@ || mode == "stream"@
}

/// Takes the audio of a request from the front of a stream of bytes. The mode and the beam size are
/// checked first; a request without audio is refused.
pub fn read_request_body(header: RequestHeader, reader: &mut &[u8]) -> (out: Result<
    DaemonRequest,
    RequestError,
>)
    ensures
        if !request_mode(header.mode@) {
            (out matches Err(RequestError::UnsupportedMode { mode }) && mode@ == header.mode@)
        } else if header.beam_size == 0 {
            out == Err::<DaemonRequest, RequestError>(RequestError::ZeroBeamSize)
        } else {
            match pcm_unframed(old(reader)@) {
                Err(error) => out == Err::<DaemonRequest, RequestError>(
                    RequestError::Pcm { error },
                ),
                Ok((None, _)) => out == Err::<DaemonRequest, RequestError>(
                    RequestError::EmptyAudio,
                ),
                Ok((Some(samples), rest)) => out is Ok && out->Ok_0.header == header
                    && out->Ok_0.audio@ == samples && final(reader)@ == rest,
            }
        },
{
    if !same_text(header.mode.as_str(), "batch") && !same_text(header.mode.as_str(), "stream") {
        return Err(RequestError::UnsupportedMode { mode: header.mode });
    }
    if header.beam_size == 0 {
        return Err(RequestError::ZeroBeamSize);
    }
    match read_pcm_frame(reader) {
        Err(error) => Err(RequestError::Pcm { error }),
        Ok(None) => Err(RequestError::EmptyAudio),
        Ok(Some(audio)) => Ok(DaemonRequest { header, audio }),
    }
}

} // verus!
