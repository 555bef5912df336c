use banana::digest::sha256_hex;
use banana::oci::{
    config_descriptor, describe_blob, image_index, image_layout, image_manifest, image_result,
    layer_descriptor, layer_from_tar, manifest_descriptor,
};
use banana::OciBuilder;
use sha2::Digest;
use std::io::Read;

fn sha256_of(data: &[u8]) -> String {
    let d = sha2::Sha256::digest(data);
    let mut s = String::from("sha256:");
    for b in d.iter() {
        s.push_str(&format!("{:02x}", b));
    }
    s
}

fn layer_tar() -> Vec<u8> {
    let mut builder = tar::Builder::new(Vec::new());
    let content = b"binary-content";
    let mut header = tar::Header::new_gnu();
    header.set_size(content.len() as u64);
    header.set_mode(0o755);
    header.set_cksum();
    builder.append_data(&mut header, "app/main", &content[..]).unwrap();
    builder.into_inner().unwrap()
}

#[test]
fn oci_image_digests_from_layer_tar() {
    let builder = OciBuilder::new()
        .entrypoint(vec!["/app/main".to_string()])
        .working_dir("/app");
    let tar = layer_tar();
    let (diff_id, layer) = layer_from_tar(&tar).unwrap();
    let config = builder.image_config(diff_id.clone());
    let config_json = format!("{{\"architecture\":\"{}\"}}", config.architecture).into_bytes();
    let manifest = image_manifest(config_descriptor(&config_json), layer);
    let manifest_json = b"{\"schemaVersion\":2}".to_vec();
    let result = image_result(&manifest_json, &manifest);
    assert!(result.manifest_digest.starts_with("sha256:"));
    assert!(result.config_digest.starts_with("sha256:"));
    assert_eq!(result.layer_digests.len(), 1);
    assert_eq!(result.manifest_digest, sha256_of(&manifest_json));
    assert_eq!(result.config_digest, sha256_of(&config_json));
    assert_eq!(result.total_size_bytes, manifest.layers[0].size + config_json.len() as u64);
    assert_eq!(diff_id, sha256_of(&tar));
}

#[test]
fn builder_defaults_and_settings() {
    let config = OciBuilder::new().image_config("sha256:abc".to_string());
    assert_eq!(config.architecture, "amd64");
    assert_eq!(config.os, "linux");
    assert_eq!(config.rootfs.rootfs_type, "layers");
    assert_eq!(config.rootfs.diff_ids, vec!["sha256:abc".to_string()]);
    assert!(config.config.entrypoint.is_empty());
    assert!(config.config.cmd.is_empty());
    assert_eq!(config.config.env, vec!["PATH=/usr/local/bin:/usr/bin:/bin".to_string()]);
    assert_eq!(config.config.working_dir, "/app");

    let custom = OciBuilder::default()
        .entrypoint(vec!["/bin/sh".to_string(), "-c".to_string()])
        .cmd(vec!["echo hi".to_string()])
        .env(vec!["A=1".to_string(), "B=2".to_string()])
        .working_dir("/srv")
        .image_config("sha256:def".to_string());
    assert_eq!(custom.config.entrypoint, vec!["/bin/sh".to_string(), "-c".to_string()]);
    assert_eq!(custom.config.cmd, vec!["echo hi".to_string()]);
    assert_eq!(custom.config.env, vec!["A=1".to_string(), "B=2".to_string()]);
    assert_eq!(custom.config.working_dir, "/srv");
}

#[test]
fn layer_blob_is_gzip_of_the_tar() {
    let tar = layer_tar();
    let (_, layer) = layer_from_tar(&tar).unwrap();
    let mut enc = flate2::write::GzEncoder::new(Vec::new(), flate2::Compression::default());
    std::io::Write::write_all(&mut enc, &tar).unwrap();
    let gz = enc.finish().unwrap();
    assert_eq!(&gz[0..3], &[0x1f, 0x8b, 0x08]);
    assert_eq!(layer.digest, sha256_of(&gz));
    assert_eq!(layer.size, gz.len() as u64);
    assert_eq!(layer.media_type, "application/vnd.oci.image.layer.v1.tar+gzip");
    let mut back = Vec::new();
    flate2::read::GzDecoder::new(&gz[..]).read_to_end(&mut back).unwrap();
    assert_eq!(back, tar);
}

#[test]
fn descriptors_name_media_type_digest_and_size() {
    let empty_digest = "sha256:e3b0c44298fc1c149afbf4c8996fb92427ae41e4649b934ca495991b7852b855";
    assert_eq!(sha256_hex(b""), empty_digest);
    let d = describe_blob("text/plain", b"");
    assert_eq!(d.media_type, "text/plain");
    assert_eq!(d.digest, empty_digest);
    assert_eq!(d.size, 0);

    let c = config_descriptor(b"{}");
    assert_eq!(c.media_type, "application/vnd.oci.image.config.v1+json");
    assert_eq!(c.size, 2);
    let m = manifest_descriptor(b"abc");
    assert_eq!(m.media_type, "application/vnd.oci.image.manifest.v1+json");
    assert_eq!(
        m.digest,
        "sha256:ba7816bf8f01cfea414140de5dae2223b00361a396177a9cb410ff61f20015ad"
    );
    let l = layer_descriptor(b"abc");
    assert_eq!(l.digest, m.digest);
    assert_eq!(l.size, 3);
}

#[test]
fn manifest_index_and_layout() {
    let config = config_descriptor(b"{}");
    let layer = layer_descriptor(b"layer");
    let manifest = image_manifest(config.clone(), layer.clone());
    assert_eq!(manifest.schema_version, 2);
    assert_eq!(manifest.media_type.as_deref(), Some("application/vnd.oci.image.manifest.v1+json"));
    assert_eq!(manifest.config.digest, config.digest);
    assert_eq!(manifest.layers.len(), 1);
    assert_eq!(manifest.layers[0].digest, layer.digest);

    let index = image_index(manifest_descriptor(b"m"));
    assert_eq!(index.schema_version, 2);
    assert_eq!(index.manifests.len(), 1);
    assert_eq!(index.manifests[0].size, 1);
    assert_eq!(image_layout().image_layout_version, "1.0.0");
}

#[test]
fn built_image_names_every_blob_by_its_digest() {
    let tar = layer_tar();
    let builder = OciBuilder::new().entrypoint(vec!["/app/main".to_string()]);
    let image = builder
        .build_image(
            &tar,
            |c| format!("{{\"os\":\"{}\"}}", c.os).into_bytes(),
            |m| format!("{{\"schemaVersion\":{}}}", m.schema_version).into_bytes(),
        )
        .unwrap();
    assert_eq!(image.blobs.len(), 3);
    for (path, bytes) in &image.blobs {
        let digest = sha256_of(bytes);
        assert_eq!(path, &format!("blobs/sha256/{}", &digest["sha256:".len()..]));
    }
    assert_eq!(image.blobs[1].1, b"{\"os\":\"linux\"}".to_vec());
    assert_eq!(image.blobs[2].1, b"{\"schemaVersion\":2}".to_vec());
    assert_eq!(image.config.rootfs.diff_ids, vec![sha256_of(&tar)]);
    assert_eq!(image.manifest.layers[0].digest, sha256_of(&image.blobs[0].1));
    assert_eq!(image.manifest.config.digest, sha256_of(&image.blobs[1].1));
    assert_eq!(image.index.manifests[0].digest, sha256_of(&image.blobs[2].1));
    assert_eq!(image.result.manifest_digest, image.index.manifests[0].digest);
    assert_eq!(image.result.layer_digests, vec![image.manifest.layers[0].digest.clone()]);
    assert_eq!(
        image.result.total_size_bytes,
        (image.blobs[0].1.len() + image.blobs[1].1.len()) as u64
    );
    assert_eq!(image.layout.image_layout_version, "1.0.0");
}
