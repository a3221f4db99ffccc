use beam_patcher::error::Error;
use beam_patcher::grf::Grf;

fn commit(grf: &mut Grf, image: &[u8]) -> Vec<u8> {
    match grf.save(image) {
        Ok(Some(img)) => img,
        other => panic!("commit did not write: {:?}", other),
    }
}

fn le32(v: u32) -> [u8; 4] {
    v.to_le_bytes()
}

fn legacy_image(version: u32, name: &[u8], body: &[u8], flags: u8) -> Vec<u8> {
    let mut img = Vec::new();
    img.extend_from_slice(b"Master of Magic");
    img.push(0);
    img.extend_from_slice(&[1, 2, 3, 4, 5, 6, 7, 8, 9, 10, 11, 12, 13, 14]);
    img.extend_from_slice(&le32(0));
    img.extend_from_slice(&le32(0));
    img.extend_from_slice(&le32(1));
    img.extend_from_slice(&le32(version));
    let table_len = 4 + name.len() + 17;
    img.extend_from_slice(&le32(name.len() as u32));
    img.extend_from_slice(name);
    img.extend_from_slice(&le32(body.len() as u32));
    img.extend_from_slice(&le32(((body.len() + 7) / 8 * 8) as u32));
    img.extend_from_slice(&le32(body.len() as u32));
    img.push(flags);
    img.extend_from_slice(&le32(table_len as u32));
    img.extend_from_slice(body);
    while (img.len() - 46 - table_len) % 8 != 0 {
        img.push(0);
    }
    img
}

#[test]
fn new_container_lists_nothing() {
    let (_, img) = Grf::create_new();
    assert_eq!(img.len(), 46);
    let grf = Grf::open(&img).unwrap();
    assert_eq!(grf.version, 0x200);
    assert!(grf.list_files().is_empty());
    assert_eq!(grf.file_count(), 0);
    assert!(grf.get_entry(b"anything").is_none());
}

#[test]
fn stage_commit_reopen_hello() {
    let (mut grf, img) = Grf::create_new();
    grf.patch_file(b"data\\abc.txt", b"hello").unwrap();
    let new_img = commit(&mut grf, &img);
    let reopened = Grf::open(&new_img).unwrap();
    assert_eq!(reopened.list_files(), vec![b"data\\abc.txt".to_vec()]);
    assert_eq!(reopened.extract_file(&new_img, b"data\\abc.txt").unwrap(), b"hello".to_vec());
    let e = reopened.get_entry(b"data\\abc.txt").unwrap();
    assert_eq!(e.flags, 0);
    assert_eq!(e.uncompressed_size, 5);
    assert_eq!(e.compressed_size, 5);
    assert_eq!(e.compressed_size_aligned, 8);
}

#[test]
fn large_repetitive_payload_is_compressed() {
    let data = vec![b'A'; 2048];
    let (mut grf, img) = Grf::create_new();
    grf.patch_file(b"big.txt", &data).unwrap();
    let new_img = commit(&mut grf, &img);
    let reopened = Grf::open(&new_img).unwrap();
    let e = reopened.get_entry(b"big.txt").unwrap();
    assert_eq!(e.flags, 1);
    assert!(e.compressed_size < 2048);
    assert_eq!(e.uncompressed_size, 2048);
    assert_eq!(reopened.extract_file(&new_img, b"big.txt").unwrap(), data);
}

#[test]
fn small_payload_is_stored_raw_even_if_compressible() {
    let data = vec![b'B'; 1024];
    let (mut grf, img) = Grf::create_new();
    grf.patch_file(b"edge.bin", &data).unwrap();
    let new_img = commit(&mut grf, &img);
    let reopened = Grf::open(&new_img).unwrap();
    let e = reopened.get_entry(b"edge.bin").unwrap();
    assert_eq!(e.flags, 0);
    assert_eq!(e.compressed_size, 1024);
    assert_eq!(e.compressed_size_aligned, 1024);
}

#[test]
fn incompressible_large_payload_stays_raw() {
    let mut data = Vec::new();
    let mut x: u32 = 12345;
    for _ in 0..4096 {
        x = x.wrapping_mul(1103515245).wrapping_add(12345);
        data.push((x >> 16) as u8);
    }
    let (mut grf, img) = Grf::create_new();
    grf.patch_file(b"noise.bin", &data).unwrap();
    let new_img = commit(&mut grf, &img);
    let reopened = Grf::open(&new_img).unwrap();
    let e = reopened.get_entry(b"noise.bin").unwrap();
    assert_eq!(e.flags, 0);
    assert_eq!(reopened.extract_file(&new_img, b"noise.bin").unwrap(), data);
}

#[test]
fn second_commit_without_staging_writes_nothing() {
    let (mut grf, img) = Grf::create_new();
    grf.patch_file(b"a", b"1").unwrap();
    let first = commit(&mut grf, &img);
    assert_eq!(grf.save(&first), Ok(None));
    assert_eq!(Grf::open(&first).unwrap().file_count(), 1);
}

#[test]
fn commit_keeps_existing_and_overrides_staged() {
    let (mut grf, img) = Grf::create_new();
    grf.patch_file(b"x", b"0").unwrap();
    grf.patch_file(b"y", b"2").unwrap();
    grf.patch_file(b"z", &vec![7u8; 3000]).unwrap();
    let img1 = commit(&mut grf, &img);
    let mut g1 = Grf::open(&img1).unwrap();
    let z_before = g1.extract_file(&img1, b"z").unwrap();
    g1.patch_file(b"x", b"new x").unwrap();
    g1.patch_file(b"w", b"fresh").unwrap();
    let img2 = commit(&mut g1, &img1);
    let g2 = Grf::open(&img2).unwrap();
    assert_eq!(g2.file_count(), 4);
    assert_eq!(g2.extract_file(&img2, b"x").unwrap(), b"new x".to_vec());
    assert_eq!(g2.extract_file(&img2, b"y").unwrap(), b"2".to_vec());
    assert_eq!(g2.extract_file(&img2, b"z").unwrap(), z_before);
    assert_eq!(g2.extract_file(&img2, b"w").unwrap(), b"fresh".to_vec());
}

#[test]
fn staging_twice_keeps_the_last_bytes() {
    let (mut grf, img) = Grf::create_new();
    grf.patch_file(b"f", b"first").unwrap();
    grf.patch_file(b"f", b"second").unwrap();
    let img1 = commit(&mut grf, &img);
    let g = Grf::open(&img1).unwrap();
    assert_eq!(g.file_count(), 1);
    assert_eq!(g.extract_file(&img1, b"f").unwrap(), b"second".to_vec());
}

#[test]
fn rebuilt_entries_are_aligned() {
    let (mut grf, img) = Grf::create_new();
    for (i, n) in [1usize, 7, 8, 9, 1500, 2049].iter().enumerate() {
        let name = format!("f{}", i);
        grf.patch_file(name.as_bytes(), &vec![b'q'; *n]).unwrap();
    }
    let img1 = commit(&mut grf, &img);
    let g = Grf::open(&img1).unwrap();
    for name in g.list_files() {
        let e = g.get_entry(&name).unwrap();
        assert_eq!(e.compressed_size_aligned % 8, 0);
        assert!(e.compressed_size_aligned - e.compressed_size < 8);
    }
}

#[test]
fn header_of_rebuilt_container() {
    let (mut grf, img) = Grf::create_new();
    grf.patch_file(b"a", b"12345678").unwrap();
    let img1 = commit(&mut grf, &img);
    assert_eq!(&img1[0..15], b"Master of Magic");
    assert_eq!(u32::from_le_bytes([img1[30], img1[31], img1[32], img1[33]]), 8);
    assert_eq!(u32::from_le_bytes([img1[34], img1[35], img1[36], img1[37]]), 0);
    assert_eq!(u32::from_le_bytes([img1[38], img1[39], img1[40], img1[41]]), 1);
    assert_eq!(u32::from_le_bytes([img1[42], img1[43], img1[44], img1[45]]), 0x200);
    assert_eq!(&img1[46..54], b"12345678");
}

#[test]
fn unknown_version_is_refused() {
    let (_, mut img) = Grf::create_new();
    img[42..46].copy_from_slice(&0x999u32.to_le_bytes());
    assert_eq!(Grf::open(&img).unwrap_err(), Error::UnsupportedVersion(0x999));
    assert_eq!(Grf::detect_version(&img), Err(Error::InvalidHeader));
}

#[test]
fn legacy_container_reads_but_does_not_commit() {
    let img = legacy_image(0x101, b"old.txt", b"legacy", 0);
    assert_eq!(Grf::detect_version(&img), Ok(0x101));
    let mut grf = Grf::open(&img).unwrap();
    assert_eq!(grf.extract_file(&img, b"old.txt").unwrap(), b"legacy".to_vec());
    grf.patch_file(b"new.txt", b"x").unwrap();
    assert_eq!(grf.save(&img), Err(Error::UnsupportedVersion(0x101)));
}

#[test]
fn encrypted_entry_is_refused() {
    let img = legacy_image(0x102, b"secret", b"cipher", 0x02);
    let grf = Grf::open(&img).unwrap();
    assert_eq!(grf.extract_file(&img, b"secret"), Err(Error::EncryptedEntry));
}

#[test]
fn bad_magic_is_invalid_header() {
    let (_, mut img) = Grf::create_new();
    img[0] = b'X';
    assert_eq!(Grf::open(&img).unwrap_err(), Error::InvalidHeader);
    assert_eq!(Grf::open(&img[..20]).unwrap_err(), Error::InvalidHeader);
}

#[test]
fn missing_file_is_not_found() {
    let (grf, img) = Grf::create_new();
    assert_eq!(grf.extract_file(&img, b"nope"), Err(Error::FileNotFound));
}

#[test]
fn truncated_table_is_malformed() {
    let (mut grf, img) = Grf::create_new();
    grf.patch_file(b"a", b"abc").unwrap();
    let img1 = commit(&mut grf, &img);
    let cut = &img1[..img1.len() - 3];
    assert!(matches!(Grf::open(cut), Err(Error::MalformedArchive(_))));
}

#[test]
fn corrupt_table_is_decompression_error() {
    let (mut grf, img) = Grf::create_new();
    grf.patch_file(b"a", b"abc").unwrap();
    let mut img1 = commit(&mut grf, &img);
    let table_at = 46 + 8 + 8;
    for b in img1[table_at..].iter_mut() {
        *b = 0xff;
    }
    assert_eq!(Grf::open(&img1).unwrap_err(), Error::Decompression);
}

#[test]
fn version_labels() {
    assert_eq!(Grf::version_name(0x101), "0x101 (Legacy)");
    assert_eq!(Grf::version_name(0x200), "0x200 (Modern Standard)");
    assert_eq!(Grf::version_name(0x300), "0x300 (Gepard Shield / Custom Encryption)");
    assert_eq!(Grf::version_name(7), "Unknown");
}

fn zlib(data: &[u8]) -> Vec<u8> {
    let mut enc = flate2::write::ZlibEncoder::new(Vec::new(), flate2::Compression::default());
    std::io::Write::write_all(&mut enc, data).unwrap();
    enc.finish().unwrap()
}

#[test]
fn version_0x300_table_is_read_from_its_own_fields() {
    let mut table = Vec::new();
    table.extend_from_slice(b"v3.txt");
    table.push(0);
    table.extend_from_slice(&le32(5));
    table.extend_from_slice(&le32(8));
    table.extend_from_slice(&le32(5));
    table.push(0);
    table.extend_from_slice(&le32(8));
    let packed = zlib(&table);
    let mut img = Vec::new();
    img.extend_from_slice(b"Master of Magic");
    img.push(0);
    img.extend_from_slice(&[1, 2, 3, 4, 5, 6, 7, 8, 9, 10, 11, 12, 13, 14]);
    img.extend_from_slice(&le32(0));
    img.extend_from_slice(&le32(1));
    img.extend_from_slice(&le32(0));
    img.extend_from_slice(&le32(0x300));
    img.extend_from_slice(&le32(table.len() as u32));
    img.extend_from_slice(&le32(packed.len() as u32));
    img.extend_from_slice(b"hello\0\0\0");
    img.resize(0x300 + 46, 0);
    img.extend_from_slice(&packed);
    let mut grf = Grf::open(&img).unwrap();
    assert_eq!(grf.version, 0x300);
    assert_eq!(grf.extract_file(&img, b"v3.txt").unwrap(), b"hello".to_vec());
    grf.patch_file(b"more", b"x").unwrap();
    assert!(matches!(grf.save(&img), Ok(Some(_))));
}
