use casper_shot::capture::{buffer_len, darkened, rows_bottom_up, set_opaque, Capture};

#[test]
fn crop_borne_le_rectangle_a_la_capture() {
    let capture = Capture { bgra: (0..4 * 4 * 4).map(|i| i as u8).collect(), width: 4, height: 4 };
    let cropped = capture.crop(2, 3, 10, 10);
    assert_eq!((cropped.width, cropped.height), (2, 1));
    assert_eq!(cropped.bgra, capture.bgra[(3 * 4 + 2) * 4..(3 * 4 + 4) * 4]);
}

#[test]
fn crop_au_milieu_et_hors_image() {
    let capture = Capture { bgra: (0..3 * 3 * 4).map(|i| i as u8).collect(), width: 3, height: 3 };
    let middle = capture.crop(1, 1, 1, 1);
    assert_eq!((middle.width, middle.height), (1, 1));
    assert_eq!(middle.bgra, vec![16, 17, 18, 19]);
    let outside = capture.crop(-5, 7, 2, 2);
    assert_eq!((outside.width, outside.height), (2, 0));
    assert!(outside.bgra.is_empty());
    let whole = capture.crop(0, 0, 3, 3);
    assert_eq!(whole.bgra, capture.bgra);
}

#[test]
fn taille_du_tampon() {
    assert_eq!(buffer_len(4, 3), 48);
    assert_eq!(buffer_len(-4, 3), 0);
    assert_eq!(buffer_len(4, -1), 0);
}

#[test]
fn assombrir_et_rendre_opaque() {
    let bytes = vec![0, 1, 255, 128, 7, 8, 9, 10];
    assert_eq!(darkened(&bytes), vec![0, 0, 127, 64, 3, 4, 4, 5]);
    let mut pixels = bytes.clone();
    set_opaque(&mut pixels);
    assert_eq!(pixels, vec![0, 1, 255, 255, 7, 8, 9, 255]);
}

#[test]
fn lignes_de_bas_en_haut() {
    let capture = Capture { bgra: (0..2 * 3 * 4).map(|i| i as u8).collect(), width: 2, height: 3 };
    let flipped = rows_bottom_up(&capture);
    let mut expected: Vec<u8> = Vec::new();
    for row in (0..3).rev() {
        expected.extend_from_slice(&capture.bgra[row * 8..row * 8 + 8]);
    }
    assert_eq!(flipped, expected);
}
