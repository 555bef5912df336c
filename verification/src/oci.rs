//! OCI image assembly: the image configuration, the content descriptors of the
//! layer, the configuration and the manifest, and the digests that name them.
//!
//! Reading the root file system into a tar archive, turning values into JSON
//! and writing the image archive are left to the caller; the functions here
//! take the archive and the JSON as bytes.
use vstd::prelude::*;
use crate::digest::{blob_path, blob_path_of, sha256_hex, sha256_text};
use std::io::Write;

verus! {

/// A content descriptor: what a blob is, its digest and its size in bytes.
#[derive(Debug, Clone)]
pub struct OciDescriptor {
    pub media_type: String,
    pub digest: String,
    pub size: u64,
}

/// An image manifest: the configuration blob and the layer blobs.
#[derive(Debug, Clone)]
pub struct OciManifest {
    pub schema_version: u32,
    pub media_type: Option<String>,
    pub config: OciDescriptor,
    pub layers: Vec<OciDescriptor>,
}

/// The image configuration.
#[derive(Debug, Clone)]
pub struct OciConfig {
    pub architecture: String,
    pub os: String,
    pub rootfs: OciRootfsConfig,
    pub config: OciExecutionConfig,
}

/// The root file system of an image: the digests of its uncompressed layers.
#[derive(Debug, Clone)]
pub struct OciRootfsConfig {
    pub rootfs_type: String,
    pub diff_ids: Vec<String>,
}

/// How a container of the image is run.
#[derive(Debug, Clone)]
pub struct OciExecutionConfig {
    pub entrypoint: Vec<String>,
    pub cmd: Vec<String>,
    pub env: Vec<String>,
    pub working_dir: String,
}

impl Default for OciExecutionConfig {
    fn default() -> (c: OciExecutionConfig)
        ensures
            c.entrypoint@.len() == 0,
            c.cmd@.len() == 0,
            c.env@.len() == 0,
            c.working_dir@.len() == 0,
    {
        OciExecutionConfig {
            entrypoint: Vec::new(),
            cmd: Vec::new(),
            env: Vec::new(),
            working_dir: String::new(),
        }
    }
}

/// The image index of an image layout: the manifests it holds.
#[derive(Debug, Clone)]
pub struct OciIndex {
    pub schema_version: u32,
    pub manifests: Vec<OciDescriptor>,
}

/// The `oci-layout` marker of an image layout.
#[derive(Debug, Clone)]
pub struct OciLayout {
    pub image_layout_version: String,
}

/// What a build reports: the digests of the manifest, the configuration and
/// the layers, and the size of the configuration and the layers together.
#[derive(Debug, Clone)]
pub struct OciImageResult {
    pub manifest_digest: String,
    pub config_digest: String,
    pub layer_digests: Vec<String>,
    pub total_size_bytes: u64,
}

/// Why an image could not be assembled.
#[derive(Debug, Clone, Copy, PartialEq, Eq, Structural)]
pub enum OciError {
    /// The gzip encoder reported an I/O error.
    Compression,
    /// The layer and the configuration together exceed `u64::MAX` bytes.
    TooLarge,
}

pub open spec fn manifest_media_type() -> Seq<char> {
    "application/vnd.oci.image.manifest.v1+json"@
}

pub open spec fn config_media_type() -> Seq<char> {
    "application/vnd.oci.image.config.v1+json"@
}

pub open spec fn layer_media_type() -> Seq<char> {
    "application/vnd.oci.image.layer.v1.tar+gzip"@
}

pub open spec fn default_path_env() -> Seq<char> {
    "PATH=/usr/local/bin:/usr/bin:/bin"@
}

/// `std::io::Error`, the error type of the gzip encoder, carried through opaque.
#[verifier::external_type_specification]
#[verifier::external_body]
pub struct ExIoError(std::io::Error);

/// What flate2's `GzEncoder` makes of `data` at the default compression level,
/// with no file name, no time stamp and the operating-system byte 255, writing
/// into a `Vec`: `Some` of the gzip stream, or `None` where the encoder reports an error.
pub uninterp spec fn gzip_default(data: Seq<u8>) -> Option<Seq<u8>>;

/// Compresses `data` with `flate2::write::GzEncoder` at `Compression::default()`
/// into a `Vec`. Claimed of the crate: the outcome, success or failure and the
/// stream written, is a function of `data` alone. The encoder (the pure-Rust
/// `miniz_oxide` backend) computes without outside state, its header carries no
/// time stamp and a fixed operating-system byte, and it writes only into the `Vec`.
#[verifier::external_body]
fn gzip_compress(data: &[u8]) -> (res: Result<Vec<u8>, std::io::Error>)
    ensures
        res is Ok <==> gzip_default(data@) is Some,
        res matches Ok(out) ==> gzip_default(data@) == Some(out@),
{
    let mut encoder = flate2::write::GzEncoder::new(Vec::new(), flate2::Compression::default());
    match encoder.write_all(data) {
        Ok(()) => encoder.finish(),
        Err(e) => Err(e),
    }
}

/// The descriptor of the blob `blob` with media type `media_type`.
pub fn describe_blob(media_type: &str, blob: &[u8]) -> (d: OciDescriptor)
    ensures
        d.media_type@ == media_type@,
        d.digest@ == sha256_text(blob@),
        d.size == blob@.len(),
{
    OciDescriptor {
        media_type: media_type.to_owned(),
        digest: sha256_hex(blob),
        size: blob.len() as u64,
    }
}

/// The descriptor of the compressed layer blob `layer_gz`.
pub fn layer_descriptor(layer_gz: &[u8]) -> (d: OciDescriptor)
    ensures
        d.media_type@ == layer_media_type(),
        d.digest@ == sha256_text(layer_gz@),
        d.size == layer_gz@.len(),
{
    describe_blob("application/vnd.oci.image.layer.v1.tar+gzip", layer_gz)
}

/// The descriptor of the configuration blob `config_json`.
pub fn config_descriptor(config_json: &[u8]) -> (d: OciDescriptor)
    ensures
        d.media_type@ == config_media_type(),
        d.digest@ == sha256_text(config_json@),
        d.size == config_json@.len(),
{
    describe_blob("application/vnd.oci.image.config.v1+json", config_json)
}

/// The descriptor of the manifest blob `manifest_json`.
pub fn manifest_descriptor(manifest_json: &[u8]) -> (d: OciDescriptor)
    ensures
        d.media_type@ == manifest_media_type(),
        d.digest@ == sha256_text(manifest_json@),
        d.size == manifest_json@.len(),
{
    describe_blob("application/vnd.oci.image.manifest.v1+json", manifest_json)
}

/// The single layer made from the tar archive `layer_tar`: its diff ID (the
/// digest of the uncompressed archive) and the descriptor of its gzip blob.
/// It fails, with `OciError::Compression`, exactly where the gzip encoder does.
pub fn layer_from_tar(layer_tar: &[u8]) -> (res: Result<(String, OciDescriptor), OciError>)
    ensures
        res is Ok <==> gzip_default(layer_tar@) is Some,
        res matches Ok((diff_id, layer)) ==> {
            &&& diff_id@ == sha256_text(layer_tar@)
            &&& layer.media_type@ == layer_media_type()
            &&& layer.digest@ == sha256_text(gzip_default(layer_tar@)->0)
            &&& layer.size == gzip_default(layer_tar@)->0.len()
        },
        res matches Err(e) ==> e == OciError::Compression,
{
    let diff_id = sha256_hex(layer_tar);
    match gzip_compress(layer_tar) {
        Ok(gz) => Ok((diff_id, layer_descriptor(gz.as_slice()))),
        Err(_) => Err(OciError::Compression),
    }
}

/// The manifest of an image made of the configuration `config` and the one layer `layer`.
pub fn image_manifest(config: OciDescriptor, layer: OciDescriptor) -> (m: OciManifest)
    ensures
        m.schema_version == 2,
        m.media_type matches Some(t) && t@ == manifest_media_type(),
        m.config == config,
        m.layers@ == seq![layer],
{
    let mut layers: Vec<OciDescriptor> = Vec::new();
    layers.push(layer);
    OciManifest {
        schema_version: 2,
        media_type: Some("application/vnd.oci.image.manifest.v1+json".to_owned()),
        config,
        layers,
    }
}

/// The index of an image layout that holds the one manifest `manifest`.
pub fn image_index(manifest: OciDescriptor) -> (idx: OciIndex)
    ensures
        idx.schema_version == 2,
        idx.manifests@ == seq![manifest],
{
    let mut manifests: Vec<OciDescriptor> = Vec::new();
    manifests.push(manifest);
    OciIndex { schema_version: 2, manifests }
}

/// The `oci-layout` marker: layout version 1.0.0.
pub fn image_layout() -> (l: OciLayout)
    ensures
        l.image_layout_version@ == "1.0.0"@,
{
    OciLayout { image_layout_version: "1.0.0".to_owned() }
}

/// The report of a build whose manifest, serialized, is `manifest_json`: the
/// digests of the manifest, of its configuration and of its layer, and the
/// size of the layer and the configuration together.
pub fn image_result(manifest_json: &[u8], manifest: &OciManifest) -> (r: OciImageResult)
    requires
        manifest.layers@.len() == 1,
        manifest.layers@[0].size + manifest.config.size <= u64::MAX,
    ensures
        r.manifest_digest@ == sha256_text(manifest_json@),
        r.config_digest == manifest.config.digest,
        r.layer_digests@ == seq![manifest.layers@[0].digest],
        r.total_size_bytes == manifest.layers@[0].size + manifest.config.size,
{
    let layer = &manifest.layers[0];
    let mut layer_digests: Vec<String> = Vec::new();
    layer_digests.push(layer.digest.clone());
    OciImageResult {
        manifest_digest: sha256_hex(manifest_json),
        config_digest: manifest.config.digest.clone(),
        layer_digests,
        total_size_bytes: layer.size + manifest.config.size,
    }
}

/// Builds images from a root file system: the entry point, command,
/// environment and working directory that the image's configuration carries.
pub struct OciBuilder {
    entrypoint: Vec<String>,
    cmd: Vec<String>,
    env: Vec<String>,
    working_dir: String,
}

impl OciBuilder {
    pub closed spec fn entrypoint_spec(&self) -> Seq<String> {
        self.entrypoint@
    }

    pub closed spec fn cmd_spec(&self) -> Seq<String> {
        self.cmd@
    }

    pub closed spec fn env_spec(&self) -> Seq<String> {
        self.env@
    }

    pub closed spec fn working_dir_spec(&self) -> Seq<char> {
        self.working_dir@
    }

    /// A builder with no entry point and no command, `PATH` set to
    /// `/usr/local/bin:/usr/bin:/bin`, and `/app` as the working directory.
    pub fn new() -> (b: OciBuilder)
        ensures
            b.entrypoint_spec().len() == 0,
            b.cmd_spec().len() == 0,
            b.env_spec().len() == 1,
            b.env_spec()[0]@ == default_path_env(),
            b.working_dir_spec() == "/app"@,
    {
        OciBuilder::default()
    }

    /// Sets the entry point.
    pub fn entrypoint(self, entrypoint: Vec<String>) -> (b: OciBuilder)
        ensures
            b.entrypoint_spec() == entrypoint@,
            b.cmd_spec() == self.cmd_spec(),
            b.env_spec() == self.env_spec(),
            b.working_dir_spec() == self.working_dir_spec(),
    {
        OciBuilder { entrypoint, ..self }
    }

    /// Sets the command.
    pub fn cmd(self, cmd: Vec<String>) -> (b: OciBuilder)
        ensures
            b.entrypoint_spec() == self.entrypoint_spec(),
            b.cmd_spec() == cmd@,
            b.env_spec() == self.env_spec(),
            b.working_dir_spec() == self.working_dir_spec(),
    {
        OciBuilder { cmd, ..self }
    }

    /// Sets the environment, each entry as `NAME=value`.
    pub fn env(self, env: Vec<String>) -> (b: OciBuilder)
        ensures
            b.entrypoint_spec() == self.entrypoint_spec(),
            b.cmd_spec() == self.cmd_spec(),
            b.env_spec() == env@,
            b.working_dir_spec() == self.working_dir_spec(),
    {
        OciBuilder { env, ..self }
    }

    /// Sets the working directory.
    pub fn working_dir(self, dir: &str) -> (b: OciBuilder)
        ensures
            b.entrypoint_spec() == self.entrypoint_spec(),
            b.cmd_spec() == self.cmd_spec(),
            b.env_spec() == self.env_spec(),
            b.working_dir_spec() == dir@,
    {
        OciBuilder { working_dir: dir.to_owned(), ..self }
    }

    /// The configuration of a linux/amd64 image whose one layer has the diff
    /// ID `diff_id`, run with this builder's settings.
    pub fn image_config(&self, diff_id: String) -> (c: OciConfig)
        ensures
            c.architecture@ == "amd64"@,
            c.os@ == "linux"@,
            c.rootfs.rootfs_type@ == "layers"@,
            c.rootfs.diff_ids@ == seq![diff_id],
            c.config.entrypoint@ == self.entrypoint_spec(),
            c.config.cmd@ == self.cmd_spec(),
            c.config.env@ == self.env_spec(),
            c.config.working_dir@ == self.working_dir_spec(),
            is_image_config(*self, diff_id@, c),
    {
        let mut diff_ids: Vec<String> = Vec::new();
        diff_ids.push(diff_id);
        let entrypoint = self.entrypoint.clone();
        let cmd = self.cmd.clone();
        let env = self.env.clone();
        proof {
            assert(entrypoint@ =~= self.entrypoint@);
            assert(cmd@ =~= self.cmd@);
            assert(env@ =~= self.env@);
        }
        OciConfig {
            architecture: "amd64".to_owned(),
            os: "linux".to_owned(),
            rootfs: OciRootfsConfig { rootfs_type: "layers".to_owned(), diff_ids },
            config: OciExecutionConfig {
                entrypoint,
                cmd,
                env,
                working_dir: self.working_dir.clone(),
            },
        }
    }
}

impl Default for OciBuilder {
    fn default() -> (b: OciBuilder)
        ensures
            b.entrypoint_spec().len() == 0,
            b.cmd_spec().len() == 0,
            b.env_spec().len() == 1,
            b.env_spec()[0]@ == default_path_env(),
            b.working_dir_spec() == "/app"@,
    {
        let mut env: Vec<String> = Vec::new();
        env.push("PATH=/usr/local/bin:/usr/bin:/bin".to_owned());
        OciBuilder {
            entrypoint: Vec::new(),
            cmd: Vec::new(),
            env,
            working_dir: "/app".to_owned(),
        }
    }
}

/// Whether `c` is the configuration that `image_config` gives for the builder
/// `b` and the layer with diff ID `diff_id`.
pub open spec fn is_image_config(b: OciBuilder, diff_id: Seq<char>, c: OciConfig) -> bool {
    &&& c.architecture@ == "amd64"@
    &&& c.os@ == "linux"@
    &&& c.rootfs.rootfs_type@ == "layers"@
    &&& c.rootfs.diff_ids@.len() == 1
    &&& c.rootfs.diff_ids@[0]@ == diff_id
    &&& c.config.entrypoint@ == b.entrypoint_spec()
    &&& c.config.cmd@ == b.cmd_spec()
    &&& c.config.env@ == b.env_spec()
    &&& c.config.working_dir@ == b.working_dir_spec()
}

/// Whether `d` describes the blob `blob` with media type `media_type`.
pub open spec fn describes_blob(d: OciDescriptor, media_type: Seq<char>, blob: Seq<u8>) -> bool {
    &&& d.media_type@ == media_type
    &&& d.digest@ == sha256_text(blob)
    &&& d.size == blob.len()
}

/// An image built in memory: its configuration and manifest, the blobs of its
/// layout (each with its path: the layer, the configuration, the manifest),
/// its index and `oci-layout` marker, and the report of the build.
#[derive(Debug, Clone)]
pub struct OciImage {
    pub config: OciConfig,
    pub manifest: OciManifest,
    pub blobs: Vec<(String, Vec<u8>)>,
    pub index: OciIndex,
    pub layout: OciLayout,
    pub result: OciImageResult,
}

/// Whether `img` is the image built by `b` from the layer archive `tar`, with
/// the configuration and the manifest written by `fc` and `fm`.
pub open spec fn image_built<FC: Fn(&OciConfig) -> Vec<u8>, FM: Fn(&OciManifest) -> Vec<u8>>(
    b: OciBuilder,
    tar: Seq<u8>,
    fc: FC,
    fm: FM,
    img: OciImage,
) -> bool {
    let gz = gzip_default(tar)->0;
    let cj = img.blobs@[1].1;
    let mj = img.blobs@[2].1;
    &&& gzip_default(tar) is Some
    &&& is_image_config(b, sha256_text(tar), img.config)
    &&& img.blobs@.len() == 3
    &&& img.blobs@[0].1@ == gz
    &&& fc.ensures((&img.config,), cj)
    &&& fm.ensures((&img.manifest,), mj)
    &&& forall|i: int| 0 <= i < 3 ==> (#[trigger] img.blobs@[i]).0@ == blob_path(img.blobs@[i].1@)
    &&& img.manifest.schema_version == 2
    &&& img.manifest.media_type matches Some(t) && t@ == manifest_media_type()
    &&& describes_blob(img.manifest.config, config_media_type(), cj@)
    &&& img.manifest.layers@.len() == 1
    &&& describes_blob(img.manifest.layers@[0], layer_media_type(), gz)
    &&& img.index.schema_version == 2
    &&& img.index.manifests@.len() == 1
    &&& describes_blob(img.index.manifests@[0], manifest_media_type(), mj@)
    &&& img.layout.image_layout_version@ == "1.0.0"@
    &&& img.result.manifest_digest@ == sha256_text(mj@)
    &&& img.result.config_digest@ == sha256_text(cj@)
    &&& img.result.layer_digests@.len() == 1
    &&& img.result.layer_digests@[0]@ == sha256_text(gz)
    &&& img.result.total_size_bytes == gz.len() + cj@.len()
}

impl OciBuilder {
    /// Builds the image of one layer from the tar archive `layer_tar`: the
    /// layer is compressed with gzip, the configuration written by
    /// `config_json`, the manifest by `manifest_json`, and each is named by its
    /// SHA-256 digest. It fails with `Compression` exactly where the gzip
    /// encoder does, and with `TooLarge` where the layer and the configuration
    /// together exceed `u64::MAX` bytes.
    pub fn build_image<FC: Fn(&OciConfig) -> Vec<u8>, FM: Fn(&OciManifest) -> Vec<u8>>(
        &self,
        layer_tar: &[u8],
        config_json: FC,
        manifest_json: FM,
    ) -> (res: Result<OciImage, OciError>)
        requires
            forall|c: &OciConfig| #[trigger] config_json.requires((c,)),
            forall|m: &OciManifest| #[trigger] manifest_json.requires((m,)),
        ensures
            res matches Ok(img) ==> image_built(*self, layer_tar@, config_json, manifest_json, img),
            res matches Err(e) ==> (e == OciError::Compression <==> gzip_default(layer_tar@) is None),
            gzip_default(layer_tar@) is Some && (forall|c: OciConfig, cb: Vec<u8>|
                #[trigger] config_json.ensures((&c,), cb) ==> cb@.len() + gzip_default(layer_tar@)->0.len()
                    <= u64::MAX) ==> res is Ok,
    {
        let diff_id = sha256_hex(layer_tar);
        let gz = match gzip_compress(layer_tar) {
            Ok(g) => g,
            Err(_) => {
                return Err(OciError::Compression);
            },
        };
        let layer = layer_descriptor(gz.as_slice());
        let config = self.image_config(diff_id);
        let cjson = config_json(&config);
        let cdesc = config_descriptor(cjson.as_slice());
        if layer.size.checked_add(cdesc.size).is_none() {
            return Err(OciError::TooLarge);
        }
        let manifest = image_manifest(cdesc, layer);
        let mjson = manifest_json(&manifest);
        let result = image_result(mjson.as_slice(), &manifest);
        let index = image_index(manifest_descriptor(mjson.as_slice()));
        let layout = image_layout();
        let gz_path = blob_path_of(gz.as_slice());
        let config_path = blob_path_of(cjson.as_slice());
        let manifest_path = blob_path_of(mjson.as_slice());
        let ghost gzv = gz@;
        let ghost cjv = cjson;
        let ghost mjv = mjson;
        let mut blobs: Vec<(String, Vec<u8>)> = Vec::new();
        blobs.push((gz_path, gz));
        blobs.push((config_path, cjson));
        blobs.push((manifest_path, mjson));
        let img = OciImage { config, manifest, blobs, index, layout, result };
        proof {
            assert(img.blobs@[0].1@ == gzv);
            assert(img.blobs@[1].1 == cjv);
            assert(img.blobs@[2].1 == mjv);
            assert(img.manifest.layers@[0] == img.manifest.layers@[0]);
        }
        Ok(img)
    }
}

/// Law: the media types of the OCI image specification v1, and the default
/// search path of a built image.
pub proof fn lemma_oci_media_types()
    ensures
        manifest_media_type() == "application/vnd.oci.image.manifest.v1+json"@,
        config_media_type() == "application/vnd.oci.image.config.v1+json"@,
        layer_media_type() == "application/vnd.oci.image.layer.v1.tar+gzip"@,
        default_path_env() == "PATH=/usr/local/bin:/usr/bin:/bin"@,
{
}

} // verus!
