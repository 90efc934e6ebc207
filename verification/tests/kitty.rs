use mdterm::kitty::{
    delete_all_images, delete_image, kitty_esc, place_image, transmit_image, transmit_payload,
};

#[test]
fn kitty_place_and_delete_escapes() {
    let p = String::from_utf8(place_image(3, 10, 20, 30, 5, None)).unwrap();
    assert!(p.contains("\x1b[10;20H"));
    assert!(p.contains("\x1b_Ga=p,i=3,p=3,c=30,r=5,q=2,C=1;\x1b\\"));
    // A source rectangle clips the image when partially visible.
    let clipped = String::from_utf8(place_image(3, 10, 20, 30, 3, Some((0, 40, 100, 60)))).unwrap();
    assert!(clipped.contains("c=30,r=3,q=2,C=1,x=0,y=40,w=100,h=20"), "got: {clipped}");
    let d = String::from_utf8(delete_image(3)).unwrap();
    assert!(d.contains("\x1b_Ga=d,d=i,i=3,q=2;\x1b\\"));
    let da = String::from_utf8(delete_all_images()).unwrap();
    assert!(da.contains("d=a"));
}

#[test]
fn kitty_transmit_chunks() {
    // 10k bytes -> ~13.3k base64 chars -> 4 chunks of <=4096.
    let data = vec![0u8; 10_000];
    let esc_bytes = transmit_image(7, &data);
    let esc = String::from_utf8_lossy(&esc_bytes);
    assert!(esc.starts_with("\x1b_Ga=t,f=100,i=7,q=2,m=1;"));
    assert!(esc.contains("\x1b_Gm=1;"));
    assert!(esc.contains("m=0;"));
    assert!(esc.ends_with("\x1b\\"));
    // Every chunk is a complete escape terminated by ST.
    let chunks: Vec<&str> = esc.split("\x1b\\").collect();
    assert!(chunks.len() >= 4);
}

#[test]
fn one_escape_has_control_and_payload() {
    assert_eq!(kitty_esc("a=t", "é"), "\x1b_Ga=t;é\x1b\\".as_bytes().to_vec());
}

#[test]
fn small_images_take_one_escape() {
    assert_eq!(
        transmit_image(7, b"hello"),
        b"\x1b_Ga=t,f=100,i=7,q=2,m=0;aGVsbG8=\x1b\\".to_vec()
    );
    assert_eq!(transmit_image(1, b""), b"\x1b_Ga=t,f=100,i=1,q=2,m=0;\x1b\\".to_vec());
}

#[test]
fn chunks_carry_the_whole_payload() {
    // 6144 bytes are 8192 characters: two chunks of exactly 4096.
    let data: Vec<u8> = (0..6144u32).map(|i| (i % 251) as u8).collect();
    let esc = String::from_utf8(transmit_image(1, &data)).unwrap();
    let payloads: Vec<&str> = esc
        .split("\x1b\\")
        .filter(|e| !e.is_empty())
        .map(|e| e.split_once(';').unwrap().1)
        .collect();
    assert_eq!(payloads.iter().map(|p| p.len()).collect::<Vec<_>>(), vec![4096, 4096]);
    assert!(esc.contains("\x1b_Gm=0;"));
}

#[test]
fn large_numbers_are_written_in_decimal() {
    let p = String::from_utf8(place_image(4294967295, 65535, 100, 1, 2, None)).unwrap();
    assert_eq!(
        p,
        "\x1b[65535;100H\x1b_Ga=p,i=4294967295,p=4294967295,c=1,r=2,q=2,C=1;\x1b\\"
    );
}

#[test]
fn payloads_are_cut_into_chunks() {
    assert_eq!(transmit_payload(5, ""), b"\x1b_Ga=t,f=100,i=5,q=2,m=0;\x1b\\");
    assert_eq!(transmit_payload(5, "QUJD"), transmit_image(5, b"ABC"));
    let whole = "x".repeat(4096);
    let mut one = b"\x1b_Ga=t,f=100,i=5,q=2,m=0;".to_vec();
    one.extend_from_slice(whole.as_bytes());
    one.extend_from_slice(b"\x1b\\");
    assert_eq!(transmit_payload(5, &whole), one);
    let mut two = b"\x1b_Ga=t,f=100,i=5,q=2,m=1;".to_vec();
    two.extend_from_slice(whole.as_bytes());
    two.extend_from_slice(b"\x1b\\\x1b_Gm=0;y\x1b\\");
    assert_eq!(transmit_payload(5, &format!("{whole}y")), two);
}
