use wap::crypto::{
    add_padding, decrypt, decrypt_stream, drain_tail, reverse_words, BlowfishCompat,
};
use wap::utils::ByteStream;

#[test]
fn reverse_words_example() {
    let mut s = b"12345678".to_vec();
    reverse_words(&mut s);
    assert_eq!(&s, b"43218765");
}

#[test]
fn reverse_words_short_tail() {
    let mut s = b"1234567".to_vec();
    reverse_words(&mut s);
    assert_eq!(&s, b"4321765");
}

#[test]
fn reverse_words_twice_restores() {
    let orig: Vec<u8> = (0u8..23).collect();
    let mut s = orig.clone();
    reverse_words(&mut s);
    assert_ne!(s, orig);
    reverse_words(&mut s);
    assert_eq!(s, orig);
}

#[test]
fn blowfish_compat_known_block() {
    // Blowfish with a zero key takes a zero block to 4EF997456198DD78;
    // blowfish-compat reverses the bytes of each word around it.
    let cipher = BlowfishCompat::new_varkey(&[0u8; 8]).unwrap();
    let mut block = [0u8; 8];
    cipher.encrypt_block(&mut block);
    assert_eq!(block, [0x45, 0x97, 0xF9, 0x4E, 0x78, 0xDD, 0x98, 0x61]);
    cipher.decrypt_block(&mut block);
    assert_eq!(block, [0u8; 8]);
}

#[test]
fn blowfish_compat_round_trip() {
    let cipher = BlowfishCompat::new_varkey(b"some key").unwrap();
    let orig = *b"ABCDEFGH";
    let mut block = orig;
    cipher.encrypt_block(&mut block);
    assert_ne!(block, orig);
    cipher.decrypt_block(&mut block);
    assert_eq!(block, orig);
}

#[test]
fn blowfish_compat_key_lengths() {
    assert!(BlowfishCompat::new_varkey(&[1, 2, 3]).is_err());
    assert!(BlowfishCompat::new_varkey(&[1, 2, 3, 4]).is_ok());
    assert!(BlowfishCompat::new_varkey(&[7u8; 56]).is_ok());
    assert!(BlowfishCompat::new_varkey(&[7u8; 57]).is_err());
    let a = BlowfishCompat::new(&[7u8; 56]);
    let b = BlowfishCompat::new_varkey(&[7u8; 56]).unwrap();
    let mut x = [1u8; 8];
    let mut y = [1u8; 8];
    a.encrypt_block(&mut x);
    b.encrypt_block(&mut y);
    assert_eq!(x, y);
}

#[test]
fn decrypt_bad_key_leaves_buffer() {
    let mut buf = vec![9u8; 16];
    assert!(decrypt(&mut buf, &[1, 2]).is_err());
    assert_eq!(buf, vec![9u8; 16]);
}

#[test]
fn decrypt_in_place_and_stream_agree() {
    let key = b"secret!";
    let cipher = BlowfishCompat::new_varkey(key).unwrap();
    let mut data: Vec<u8> = (0u8..16).collect();
    for chunk in data.chunks_mut(8) {
        cipher.encrypt_block(chunk);
    }
    let mut with_tail = data.clone();
    with_tail.extend_from_slice(&[1, 2, 3]);

    let mut in_place = data.clone();
    decrypt(&mut in_place, key).unwrap();
    assert_eq!(in_place, (0u8..16).collect::<Vec<u8>>());

    let mut stream = ByteStream::new(&with_tail);
    let mut out = vec![0xAA];
    decrypt_stream(&mut stream, key, &mut out);
    assert_eq!(out[0], 0xAA);
    assert_eq!(&out[1..], &in_place[..]);
}

#[test]
fn add_padding_to_blocks() {
    let mut a = vec![1u8; 5];
    add_padding(&mut a);
    assert_eq!(a, vec![1, 1, 1, 1, 1, 0, 0, 0]);
    let mut b = vec![2u8; 8];
    add_padding(&mut b);
    assert_eq!(b, vec![2u8; 8]);
    let mut c: Vec<u8> = Vec::new();
    add_padding(&mut c);
    assert!(c.is_empty());
}

#[test]
fn drain_tail_drops_last_block() {
    let mut a = vec![b'x', b'y', 0, 0, 0, 1, 2, 3, 4, 5, 6, 7, 8];
    drain_tail(&mut a);
    assert_eq!(a, vec![b'x', b'y', 0, 0, 0]);
    let mut b = vec![b'x', b'y', 0, 9, 0, 1, 2, 3, 4, 5, 6, 7, 8];
    drain_tail(&mut b);
    assert_eq!(b.len(), 13);
}
