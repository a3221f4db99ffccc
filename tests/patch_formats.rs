use std::io::Write;

use beam_patcher::beam::BeamArchive;
use beam_patcher::config::{Config, ConfigError};
use beam_patcher::error::Error;
use beam_patcher::gpf::Gpf;
use beam_patcher::grf::Grf;
use beam_patcher::patcher::{apply_patch, classify_patch, PatchFormat};
use beam_patcher::rgz::{Rgz, RgzEntry};
use beam_patcher::thor::{Thor, ThorEntry};

const THOR_MAGIC: &[u8; 28] = b"ASSF (C) 2007 Aeomin DEV\x1A\x04\x0C\x00";

fn gzip(data: &[u8]) -> Vec<u8> {
    let mut enc = flate2::write::GzEncoder::new(Vec::new(), flate2::Compression::default());
    enc.write_all(data).unwrap();
    enc.finish().unwrap()
}

fn thor_file(body: &[u8]) -> Vec<u8> {
    let mut f = THOR_MAGIC.to_vec();
    f.extend_from_slice(&gzip(body));
    f
}

fn thor_add(body: &mut Vec<u8>, name: &[u8], data: &[u8]) {
    body.push(1);
    body.push(name.len() as u8);
    body.extend_from_slice(name);
    body.extend_from_slice(&(data.len() as u32).to_le_bytes());
    body.extend_from_slice(data);
}

fn thor_remove(body: &mut Vec<u8>, name: &[u8]) {
    body.push(2);
    body.push(name.len() as u8);
    body.extend_from_slice(name);
}

fn grf_with(files: &[(&[u8], &[u8])]) -> (Grf, Vec<u8>) {
    let (mut grf, img) = Grf::create_new();
    for (n, d) in files {
        grf.patch_file(n, d).unwrap();
    }
    let img1 = grf.save(&img).unwrap().unwrap();
    (Grf::open(&img1).unwrap(), img1)
}

fn saved_beam(files: &[(&[u8], &[u8])]) -> Vec<u8> {
    let mut beam = BeamArchive::new();
    for (n, d) in files {
        beam.add_file(n, d).unwrap();
    }
    beam.save(&[]).unwrap()
}

#[test]
fn beam_round_trip_and_verify() {
    let img = saved_beam(&[(b"a.txt", b"X"), (b"b.txt", b"Y")]);
    assert_eq!(&img[0..4], b"BEAM");
    let beam = BeamArchive::open(&img).unwrap();
    assert_eq!(beam.version, 1);
    assert_eq!(beam.extract_file(&img, b"a.txt").unwrap(), b"X".to_vec());
    assert_eq!(beam.extract_file(&img, b"b.txt").unwrap(), b"Y".to_vec());
    assert_eq!(beam.verify_file(&img, b"a.txt"), Ok(true));
    let mut names = beam.list_files();
    names.sort();
    assert_eq!(names, vec![b"a.txt".to_vec(), b"b.txt".to_vec()]);
}

#[test]
fn beam_corrupt_md5_is_checksum_mismatch() {
    let mut img = saved_beam(&[(b"a.txt", b"X"), (b"b.txt", b"Y")]);
    let beam = BeamArchive::open(&img).unwrap();
    let md5_at = {
        let mut pos = 64;
        loop {
            let n = img[pos] as usize;
            if &img[pos + 1..pos + 1 + n] == b"a.txt" {
                break pos + 1 + n;
            }
            pos += 33 + n;
        }
    };
    assert_eq!(&img[md5_at..md5_at + 16], &beam.get_entry(b"a.txt").unwrap().md5_hash);
    img[md5_at] ^= 0x01;
    let beam = BeamArchive::open(&img).unwrap();
    assert_eq!(beam.extract_file(&img, b"a.txt"), Err(Error::ChecksumMismatch));
    assert_eq!(beam.verify_file(&img, b"a.txt"), Ok(false));
    assert_eq!(beam.extract_file(&img, b"b.txt").unwrap(), b"Y".to_vec());
}

#[test]
fn beam_md5_is_that_of_the_payload() {
    let mut beam = BeamArchive::new();
    beam.add_file(b"abc", b"abc").unwrap();
    let e = beam.get_entry(b"abc").unwrap();
    assert_eq!(
        e.md5_hash,
        [0x90, 0x01, 0x50, 0x98, 0x3c, 0xd2, 0x4f, 0xb0, 0xd6, 0x96, 0x3f, 0x7d, 0x28, 0xe1, 0x7f, 0x72]
    );
    assert_eq!(e.uncompressed_size, 3);
}

#[test]
fn beam_resave_of_opened_archive() {
    let img = saved_beam(&[(b"one", b"111"), (b"two", b"2222")]);
    let mut beam = BeamArchive::open(&img).unwrap();
    beam.add_file(b"three", b"33").unwrap();
    let img2 = beam.save(&img).unwrap();
    let again = BeamArchive::open(&img2).unwrap();
    assert_eq!(again.list_files().len(), 3);
    assert_eq!(again.extract_file(&img2, b"one").unwrap(), b"111".to_vec());
    assert_eq!(again.extract_file(&img2, b"three").unwrap(), b"33".to_vec());
}

#[test]
fn beam_errors() {
    assert!(matches!(BeamArchive::open(b"NOPE"), Err(Error::InvalidHeader)));
    let mut beam = BeamArchive::new();
    let long = vec![b'n'; 256];
    assert_eq!(beam.add_file(&long, b"x"), Err(Error::CapacityExceeded));
    let img = saved_beam(&[(b"a", b"A")]);
    let beam = BeamArchive::open(&img).unwrap();
    assert_eq!(beam.extract_file(&img, b"zzz"), Err(Error::FileNotFound));
    assert!(matches!(BeamArchive::open(&img[..70]), Err(Error::MalformedArchive(_))));
}

#[test]
fn thor_add_and_remove() {
    let mut body = Vec::new();
    thor_add(&mut body, b"x", b"1");
    thor_remove(&mut body, b"y");
    let thor = Thor::from_bytes(&thor_file(&body)).unwrap();
    let entries = thor.get_entries();
    assert_eq!(entries.len(), 2);
    match &entries[0] {
        ThorEntry::Add { filename, data } => {
            assert_eq!(filename, b"x");
            assert_eq!(data, b"1");
        }
        _ => panic!("expected an add"),
    }
    match &entries[1] {
        ThorEntry::Remove { filename } => assert_eq!(filename, b"y"),
        _ => panic!("expected a remove"),
    }
}

#[test]
fn thor_unknown_mode_is_skipped_and_stream_read_to_end() {
    let mut body = vec![9u8, 2, b'q', b'q'];
    thor_add(&mut body, b"k", b"vv");
    let thor = Thor::from_body(&body).unwrap();
    assert_eq!(thor.entries.len(), 1);
}

#[test]
fn thor_errors() {
    assert!(matches!(Thor::from_bytes(b"short"), Err(Error::InvalidHeader)));
    let mut bad = THOR_MAGIC.to_vec();
    bad[0] = b'B';
    bad.extend_from_slice(&gzip(b""));
    assert!(matches!(Thor::from_bytes(&bad), Err(Error::InvalidHeader)));
    let mut garbage = THOR_MAGIC.to_vec();
    garbage.extend_from_slice(b"not gzip at all");
    assert!(matches!(Thor::from_bytes(&garbage), Err(Error::Decompression)));
    let truncated = vec![1u8, 1, b'a', 5, 0, 0, 0, b'x'];
    assert!(matches!(Thor::from_body(&truncated), Err(Error::MalformedArchive(7))));
}

#[test]
fn rgz_directory_then_end() {
    let rgz = Rgz::from_bytes(&gzip(&[b'd', 1, b'd', b'e'])).unwrap();
    assert_eq!(rgz.entries.len(), 1);
    match &rgz.get_entries()[0] {
        RgzEntry::Directory { name } => assert_eq!(name, b"d"),
        _ => panic!("expected a directory"),
    }
}

#[test]
fn rgz_unknown_tag_is_invalid_format() {
    assert!(matches!(Rgz::from_bytes(&gzip(&[b'd', 1, b'd', b'x'])), Err(Error::InvalidFormat)));
}

#[test]
fn rgz_stops_at_end_marker() {
    let mut body = vec![b'f', 2, b'h', b'i'];
    body.extend_from_slice(&3u32.to_le_bytes());
    body.extend_from_slice(b"abc");
    body.push(b'e');
    body.extend_from_slice(b"trailing junk");
    let rgz = Rgz::from_body(&body).unwrap();
    assert_eq!(rgz.entries.len(), 1);
    match &rgz.entries[0] {
        RgzEntry::File { name, data } => {
            assert_eq!(name, b"hi");
            assert_eq!(data, b"abc");
        }
        _ => panic!("expected a file"),
    }
}

#[test]
fn gpf_reads_like_grf() {
    let (_, img) = grf_with(&[(b"p.txt", b"payload")]);
    let gpf = Gpf::open(&img).unwrap();
    assert_eq!(gpf.file_count(), 1);
    assert_eq!(gpf.list_files(), vec![b"p.txt".to_vec()]);
    assert_eq!(gpf.extract_file(&img, b"p.txt").unwrap(), b"payload".to_vec());
    assert!(gpf.get_entry(b"p.txt").is_some());
}

#[test]
fn classifier_ignores_case() {
    assert_eq!(classify_patch(b"FOO.BEAM"), Ok(PatchFormat::Beam));
    assert_eq!(classify_patch(b"foo.beam"), Ok(PatchFormat::Beam));
    assert_eq!(classify_patch(b"Foo.Beam"), Ok(PatchFormat::Beam));
    assert_eq!(classify_patch(b"dir/x.THOR"), Ok(PatchFormat::Thor));
    assert_eq!(classify_patch(b"x.rgz"), Ok(PatchFormat::Rgz));
    assert_eq!(classify_patch(b"C:\\p\\x.Gpf"), Ok(PatchFormat::Gpf));
    assert_eq!(classify_patch(b"x.zip"), Err(Error::UnknownPatchFormat));
    assert_eq!(classify_patch(b".beam"), Err(Error::UnknownPatchFormat));
    assert_eq!(classify_patch(b"beam.d/file"), Err(Error::UnknownPatchFormat));
}

#[test]
fn thor_patch_applied_to_grf() {
    let (mut grf, img) = grf_with(&[(b"x", b"0"), (b"y", b"2"), (b"z", b"3")]);
    let mut body = Vec::new();
    thor_add(&mut body, b"x", b"1");
    thor_remove(&mut body, b"y");
    let out = apply_patch(&mut grf, &img, b"patch.thor", &thor_file(&body)).unwrap().unwrap();
    let g = Grf::open(&out).unwrap();
    assert_eq!(g.extract_file(&out, b"x").unwrap(), b"1".to_vec());
    assert_eq!(g.extract_file(&out, b"z").unwrap(), b"3".to_vec());
    assert_eq!(g.extract_file(&out, b"y").unwrap(), b"2".to_vec());
}

#[test]
fn beam_patch_applied_to_grf() {
    let (mut grf, img) = grf_with(&[(b"keep", b"k")]);
    let patch = saved_beam(&[(b"a.txt", b"X")]);
    let out = apply_patch(&mut grf, &img, b"P.BEAM", &patch).unwrap().unwrap();
    let g = Grf::open(&out).unwrap();
    assert_eq!(g.extract_file(&out, b"a.txt").unwrap(), b"X".to_vec());
    assert_eq!(g.extract_file(&out, b"keep").unwrap(), b"k".to_vec());
}

#[test]
fn bad_beam_patch_stages_nothing() {
    let (mut grf, img) = grf_with(&[(b"keep", b"k")]);
    let mut patch = saved_beam(&[(b"a.txt", b"X")]);
    patch[64 + 1 + 5] ^= 0xff;
    assert_eq!(apply_patch(&mut grf, &img, b"p.beam", &patch), Err(Error::ChecksumMismatch));
    assert!(grf.pending.is_empty());
}

#[test]
fn rgz_and_gpf_patches_applied_to_grf() {
    let (mut grf, img) = grf_with(&[(b"base", b"b")]);
    let mut body = vec![b'd', 3, b'd', b'i', b'r', b'f', 1, b'r'];
    body.extend_from_slice(&2u32.to_le_bytes());
    body.extend_from_slice(b"rr");
    body.push(b'e');
    let out = apply_patch(&mut grf, &img, b"p.rgz", &gzip(&body)).unwrap().unwrap();
    let mut g = Grf::open(&out).unwrap();
    assert_eq!(g.file_count(), 2);
    assert_eq!(g.extract_file(&out, b"r").unwrap(), b"rr".to_vec());
    let (_, gpf_img) = grf_with(&[(b"g", b"from gpf")]);
    let out2 = apply_patch(&mut g, &out, b"p.gpf", &gpf_img).unwrap().unwrap();
    let g2 = Grf::open(&out2).unwrap();
    assert_eq!(g2.extract_file(&out2, b"g").unwrap(), b"from gpf".to_vec());
    assert_eq!(g2.extract_file(&out2, b"base").unwrap(), b"b".to_vec());
}

#[test]
fn unknown_patch_extension_is_refused() {
    let (mut grf, img) = grf_with(&[(b"base", b"b")]);
    assert_eq!(apply_patch(&mut grf, &img, b"p.exe", b""), Err(Error::UnknownPatchFormat));
}

#[test]
fn default_config_is_valid() {
    let c = Config::default();
    assert_eq!(c.validate(), Ok(()));
    assert_eq!(c.patcher.target_grf, "data.grf");
    assert_eq!(c.patcher.mirrors.len(), 1);
    assert_eq!(c.ui.layout.width, 800);
}

#[test]
fn config_rules_in_order() {
    let mut c = Config::default();
    c.patcher.target_grf = String::new();
    assert_eq!(c.validate(), Err(ConfigError::EmptyTargetGrf));
    c.patcher.patch_list_url = String::new();
    assert_eq!(c.validate(), Err(ConfigError::EmptyPatchListUrl));
    c.patcher.mirrors.clear();
    assert_eq!(c.validate(), Err(ConfigError::NoMirror));
}

#[test]
fn beam_adding_a_name_again_replaces_it() {
    let mut beam = BeamArchive::new();
    beam.add_file(b"same", b"first").unwrap();
    beam.add_file(b"same", b"second").unwrap();
    assert_eq!(beam.list_files().len(), 1);
    let img = beam.save(&[]).unwrap();
    let again = BeamArchive::open(&img).unwrap();
    assert_eq!(again.extract_file(&img, b"same").unwrap(), b"second".to_vec());
}
