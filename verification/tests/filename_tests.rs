use casper_shot::filename::{
    capture_file_stem, month_dir_name, sanitize_component, unique_path, CAPTURE_EXTENSION, FALLBACK_NAME,
    MAX_TITLE_CHARS,
};
use std::cell::RefCell;

#[test]
fn sanitize_remplace_les_caracteres_interdits() {
    assert_eq!(sanitize_component(r#"C:\Users\Test\file<>:"/\|?*.txt"#), "C__Users_Test_file_________.txt");
}

#[test]
fn sanitize_tronque_le_titre() {
    assert_eq!(sanitize_component(&"é".repeat(200)).chars().count(), MAX_TITLE_CHARS);
}

#[test]
fn sanitize_titre_vide_ou_blanc_donne_desktop() {
    assert_eq!(sanitize_component(""), FALLBACK_NAME);
    assert_eq!(sanitize_component("   "), FALLBACK_NAME);
}

#[test]
fn sanitize_enleve_les_blancs_et_controles() {
    assert_eq!(sanitize_component("  Notes\t- Bloc\u{7f}  "), "Notes_- Bloc_");
    assert_eq!(sanitize_component("\u{3000}Titre\u{2003}"), "Titre");
}

#[test]
fn unique_path_sans_conflit_renvoie_le_chemin_tel_quel() {
    let asked = RefCell::new(Vec::new());
    let name = unique_path("no_conflict", "webp", |n: &str| {
        asked.borrow_mut().push(n.to_string());
        false
    });
    assert_eq!(name, "no_conflict.webp");
    assert_eq!(asked.into_inner(), vec!["no_conflict.webp".to_string()]);
}

#[test]
fn unique_path_incremente_sur_conflit() {
    let taken = RefCell::new(vec!["conflict.webp".to_string()]);
    let exists = |n: &str| taken.borrow().iter().any(|t| t == n);
    assert_eq!(unique_path("conflict", "webp", exists), "conflict (1).webp");
    taken.borrow_mut().push("conflict (1).webp".to_string());
    assert_eq!(unique_path("conflict", "webp", exists), "conflict (2).webp");
}

#[test]
fn nom_de_capture_et_dossier_du_mois() {
    let stem = capture_file_stem("Notepad", 3, 7, 2024, 90);
    assert_eq!(stem, "Notepad_03-07-2024_q90");
    assert_eq!(format!("{stem}.{CAPTURE_EXTENSION}"), "Notepad_03-07-2024_q90.webp");
    assert_eq!(capture_file_stem("A", 12, 31, 999, 100), "A_12-31-999_q100");
    assert_eq!(month_dir_name(2024, 3), "2024-03");
    assert_eq!(month_dir_name(2025, 11), "2025-11");
}
