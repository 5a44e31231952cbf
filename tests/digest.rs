use dedup_index::digest::FileHasher;

#[test]
fn digest_of_empty_input() {
    assert_eq!(
        FileHasher::new().finish(),
        "e3b0c44298fc1c149afbf4c8996fb92427ae41e4649b934ca495991b7852b855"
    );
}

#[test]
fn digest_of_abc() {
    let mut hasher = FileHasher::new();
    hasher.update(b"abc");
    assert_eq!(
        hasher.finish(),
        "ba7816bf8f01cfea414140de5dae2223b00361a396177a9cb410ff61f20015ad"
    );
}

#[test]
fn digest_is_independent_of_chunking() {
    let data: Vec<u8> = (0..20_000u32).map(|i| (i % 251) as u8).collect();
    let mut whole = FileHasher::new();
    whole.update(&data);
    let mut chunked = FileHasher::new();
    for chunk in data.chunks(8192) {
        chunked.update(chunk);
    }
    assert_eq!(whole.finish(), chunked.finish());
}
