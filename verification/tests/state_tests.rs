use casper_shot::expand::{expand_env, known_folder_after_userprofile, variable_names};
use casper_shot::decimal::integer_of_number;
use casper_shot::state::{exe_dir_join, load_file, load_text, state_path, to_text, State};

fn no_folders() -> Vec<Option<String>> {
    vec![None, None, None, None, None, None]
}

#[test]
fn fichier_absent_donne_les_valeurs_par_defaut_et_le_cree() {
    let (state, write_back) = load_text(None);
    assert_eq!(state.quality, 90);
    assert_eq!(state.hotkey_fullscreen, "PrintScreen");
    assert_eq!(state.hotkey_region, "Shift+PrintScreen");
    assert_eq!(state.preview_percent, 40);
    assert_eq!(state.preview_duration_ms, 2500);
    assert!(write_back);
}

#[test]
fn preview_percent_a_zero_est_accepte() {
    let (state, write_back) = load_text(Some(r#"{"preview_percent": 0}"#));
    assert_eq!(state.preview_percent, 0);
    assert!(write_back);
}

#[test]
fn round_trip_save_puis_load_preserve_toutes_les_valeurs() {
    let state = State {
        quality: 75,
        hotkey_fullscreen: "Ctrl+Alt+S".to_string(),
        hotkey_region: "Ctrl+Alt+D".to_string(),
        save_path: r#"C:\Users\"Test""#.to_string(),
        preview_percent: 25,
        preview_duration_ms: 1500,
    };
    let text = to_text(&state);
    let (reloaded, _) = load_text(Some(&text));
    assert_eq!(reloaded.quality, 75);
    assert_eq!(reloaded.hotkey_fullscreen, "Ctrl+Alt+S");
    assert_eq!(reloaded.hotkey_region, "Ctrl+Alt+D");
    assert_eq!(reloaded.save_path, state.save_path);
    assert_eq!(reloaded.preview_percent, 25);
    assert_eq!(reloaded.preview_duration_ms, 1500);
}

#[test]
fn champ_manquant_ou_hors_limites_retombe_sur_le_defaut_ou_est_borne() {
    let (state, _) = load_text(Some(r#"{"quality": 420, "hotkey_region": 3}"#));
    assert_eq!(state.quality, 100);
    assert_eq!(state.hotkey_region, State::default().hotkey_region);
}

#[test]
fn fichier_invalide_n_est_pas_ecrase() {
    let text = r#"{"quality": 50,}"#;
    let (state, write_back) = load_text(Some(text));
    assert_eq!(state.quality, 90);
    assert!(!write_back);
}

#[test]
fn expand_env_remplace_les_variables_connues() {
    let env = vec![("CASPER_SHOT_TEST_VAR".to_string(), Some(r"C:\Users\Test".to_string()))];
    assert_eq!(expand_env(r"%CASPER_SHOT_TEST_VAR%\Pictures", &env, &no_folders()), r"C:\Users\Test\Pictures");
}

#[test]
fn expand_env_laisse_une_variable_inconnue_ou_non_fermee_telle_quelle() {
    let env = vec![("CASPER_SHOT_INCONNUE_XYZ".to_string(), None)];
    assert_eq!(
        expand_env(r"%CASPER_SHOT_INCONNUE_XYZ%\Pictures", &env, &no_folders()),
        r"%CASPER_SHOT_INCONNUE_XYZ%\Pictures"
    );
    assert_eq!(expand_env(r"C:\100%\x", &Vec::new(), &no_folders()), r"C:\100%\x");
}

#[test]
fn userprofile_pictures_suit_une_redirection() {
    let pictures = r"D:\Images".to_string();
    let mut folders = no_folders();
    folders[4] = Some(pictures.clone());
    let env = vec![("USERPROFILE".to_string(), Some(r"C:\Users\Test".to_string()))];
    assert_eq!(expand_env(r"%USERPROFILE%\Pictures\Screenshots", &env, &folders), format!("{pictures}\\Screenshots"));
    assert_eq!(expand_env(r"%userprofile%/pictures", &env, &folders), pictures);
}

#[test]
fn userprofile_picturesfoo_nest_pas_confondu_avec_pictures() {
    let userprofile = r"C:\Users\Test".to_string();
    let mut folders = no_folders();
    folders[4] = Some(r"D:\Images".to_string());
    let env = vec![("USERPROFILE".to_string(), Some(userprofile.clone()))];
    assert_eq!(expand_env(r"%USERPROFILE%\Picturesfoo\save", &env, &folders), format!("{userprofile}\\Picturesfoo\\save"));
}

#[test]
fn dossier_connu_apres_userprofile() {
    let mut folders = no_folders();
    folders[1] = Some(r"E:\Docs".to_string());
    assert_eq!(known_folder_after_userprofile(r"\documents\x", &folders), Some((r"E:\Docs".to_string(), 10)));
    assert_eq!(known_folder_after_userprofile(r"/Documents", &folders), Some((r"E:\Docs".to_string(), 10)));
    assert_eq!(known_folder_after_userprofile(r"Documents", &folders), None);
    assert_eq!(known_folder_after_userprofile(r"\Documentsx", &folders), None);
    assert_eq!(known_folder_after_userprofile(r"\Music", &folders), None);
}

#[test]
fn noms_des_variables_a_chercher() {
    let mut folders = no_folders();
    folders[4] = Some(r"D:\Images".to_string());
    let names = variable_names(r"%A%\%USERPROFILE%\Pictures\%B%%C", &folders);
    assert_eq!(names, vec!["A".to_string(), "B".to_string()]);
    let names = variable_names(r"%USERPROFILE%\Videos", &folders);
    assert_eq!(names, vec!["USERPROFILE".to_string()]);
}

#[test]
fn texte_du_fichier_de_reglages_par_defaut() {
    let text = to_text(&State::default());
    assert_eq!(
        text,
        "{\n  \"quality\": 90,\n  \"hotkey_fullscreen\": \"PrintScreen\",\n  \"hotkey_region\": \"Shift+PrintScreen\",\n  \"save_path\": \"%USERPROFILE%\\\\Pictures\\\\Screenshots\",\n  \"preview_percent\": 40,\n  \"preview_duration_ms\": 2500\n}\n"
    );
}

#[test]
fn nombres_bornes_et_arrondis_vers_zero() {
    let (state, _) = load_text(Some(r#"{"quality": -5, "preview_percent": 42.9, "preview_duration_ms": 1e12}"#));
    assert_eq!(state.quality, 0);
    assert_eq!(state.preview_percent, 42);
    assert_eq!(state.preview_duration_ms, u32::MAX);
    let (state, _) = load_text(Some("\u{FEFF}{\"quality\": 5e1, \"save_path\": \"D:\\\\x\"}"));
    assert_eq!(state.quality, 50);
    assert_eq!(state.save_path, "D:\\x");
}

#[test]
fn fichier_de_reglages_a_cote_du_programme() {
    let exe = std::path::PathBuf::from("/opt/casper/casper_shot.exe");
    assert_eq!(state_path(Some(&exe)), std::path::PathBuf::from("/opt/casper/state.json"));
    assert_eq!(state_path(None), std::path::PathBuf::from("state.json"));
    assert_eq!(exe_dir_join(Some(&exe), "shots"), std::path::PathBuf::from("/opt/casper/shots"));
    assert_eq!(exe_dir_join(Some(&exe), "/data/shots"), std::path::PathBuf::from("/data/shots"));
    assert_eq!(exe_dir_join(Some(&std::path::PathBuf::from("/")), "x"), std::path::PathBuf::from("x"));
}

#[test]
fn qualite_au_dessus_de_cent_relue_a_cent() {
    let mut state = State::default();
    state.quality = 150;
    state.preview_percent = 200;
    let (reloaded, _) = load_text(Some(&to_text(&state)));
    assert_eq!(reloaded.quality, 100);
    assert_eq!(reloaded.preview_percent, 100);
}

#[test]
fn fichier_qui_n_est_pas_de_l_utf8_n_est_pas_ecrase() {
    let bytes: &[u8] = b"{\"preview_percent\": 10, \"save_path\": \"D:/\xe9t\xe9\"}";
    let (state, write_back) = load_file(Some(bytes));
    assert_eq!(state.preview_percent, 40);
    assert_eq!(state.save_path, State::default().save_path);
    assert!(!write_back);
    let (state, write_back) = load_file(Some("{\"preview_percent\": 10}".as_bytes()));
    assert_eq!(state.preview_percent, 10);
    assert!(write_back);
    let (state, write_back) = load_file(None);
    assert_eq!(state.quality, 90);
    assert!(write_back);
}

#[test]
fn nombres_lus_comme_le_double_le_plus_proche() {
    let (state, _) = load_text(Some(
        r#"{"quality": 0.99999999999999999, "preview_percent": 89.99999999999999999, "preview_duration_ms": 4294967294.9999999}"#,
    ));
    assert_eq!(state.quality, 1);
    assert_eq!(state.preview_percent, 90);
    assert_eq!(state.preview_duration_ms, u32::MAX);
    let (state, _) = load_text(Some(r#"{"quality": 0.9999999999999999, "preview_percent": 89.9999999999999}"#));
    assert_eq!(state.quality, 0);
    assert_eq!(state.preview_percent, 89);
}

fn through_double(text: &str, max: u32) -> u32 {
    text.parse::<f64>().unwrap().clamp(0.0, max as f64) as u32
}

#[test]
fn entier_d_un_nombre_comme_par_un_double() {
    let texts = [
        "0", "-0", "-0.0", "7", "42.9", "1e2", "1E+2", "5e-1", "0.5", "-3.7", "12e-1",
        "0.99999999999999994", "0.99999999999999995", "0.999999999999999944488848768742172978818416595458984375",
        "0.9999999999999999444888487687421729788184165954589843749", "0.99999999999999999",
        "1.9999999999999998", "1.99999999999999989", "1.999999999999999888977697537484345957636833190917968750",
        "1.9999999999999998889776975374843459576368331909179687499", "3.99999999999999978",
        "89.99999999999999999", "89.9999999999999", "99.999999999999993", "99.999999999999995",
        "65535.999999999996", "4294967294.9999999", "4294967295.5", "4294967296", "1e400",
        "0.000000000000000000000000000000000000000000000000000001e54", "9999999999999999999e-19",
        "123456789012345678901234567890e-28", "1e-400", "-1e400", "0.00000000000000000000000000001",
    ];
    for max in [100u32, 1000, 65536, u32::MAX] {
        for t in texts.iter() {
            assert_eq!(integer_of_number(t, max), through_double(t, max), "{} with limit {}", t, max);
        }
    }
}
