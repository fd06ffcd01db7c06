use windows_sys::Win32::UI::Input::KeyboardAndMouse as km;
use casper_shot::hotkey::{
    after_registering, RegistrationStep,
    hotkey_for_id, key_code, parse, registrations, Hotkey, ID_FULLSCREEN, ID_REGION, MOD_ALT, MOD_CONTROL,
    MOD_NOREPEAT, MOD_SHIFT, MOD_WIN, VK_F1, VK_SNAPSHOT,
};

#[test]
fn parse_reconnait_modificateurs_et_touche() {
    assert_eq!(parse("Ctrl+Alt+S"), Some((MOD_CONTROL | MOD_ALT, b'S' as u32)));
    assert_eq!(parse("win+shift+F5"), Some((MOD_WIN | MOD_SHIFT, 0x74)));
    assert_eq!(parse("D"), Some((0, b'D' as u32)));
    assert_eq!(parse("PrintScreen"), Some((0, 0x2C)));
    assert_eq!(parse("Shift+PrintScreen"), Some((MOD_SHIFT, 0x2C)));
}

#[test]
fn parse_refuse_le_texte_invalide() {
    assert_eq!(parse(""), None);
    assert_eq!(parse("Ctrl+Alt"), None);
    assert_eq!(parse("Ctrl+F13"), None);
    assert_eq!(parse("Ctrl+AB"), None);
    assert_eq!(parse("Ctrl+A+B"), None);
    assert_eq!(parse("FF5"), None);
}

#[test]
fn constantes_du_systeme() {
    assert_eq!(MOD_ALT, km::MOD_ALT);
    assert_eq!(MOD_CONTROL, km::MOD_CONTROL);
    assert_eq!(MOD_SHIFT, km::MOD_SHIFT);
    assert_eq!(MOD_WIN, km::MOD_WIN);
    assert_eq!(MOD_NOREPEAT, km::MOD_NOREPEAT);
    assert_eq!(VK_SNAPSHOT, km::VK_SNAPSHOT as u32);
    assert_eq!(VK_F1, km::VK_F1 as u32);
}

#[test]
fn parse_blancs_casse_et_repetitions() {
    assert_eq!(parse(" ctrl + control +x "), Some((MOD_CONTROL, b'X' as u32)));
    assert_eq!(parse("Alt++F12"), Some((MOD_ALT, 0x7B)));
    assert_eq!(parse("windows+9"), Some((MOD_WIN, b'9' as u32)));
    assert_eq!(parse("prtsc"), Some((0, 0x2C)));
    assert_eq!(parse("F"), Some((0, b'F' as u32)));
    assert_eq!(parse("F0"), None);
    assert_eq!(parse("é"), None);
}

#[test]
fn codes_de_touches() {
    assert_eq!(key_code("PRINTSCREEN"), Some(0x2C));
    assert_eq!(key_code("IMPRECR"), Some(0x2C));
    assert_eq!(key_code("F1"), Some(0x70));
    assert_eq!(key_code("F12"), Some(0x7B));
    assert_eq!(key_code("F012"), Some(0x7B));
    assert_eq!(key_code("F+3"), Some(0x72));
    assert_eq!(key_code("F13"), None);
    assert_eq!(key_code("F99999999999"), None);
    assert_eq!(key_code("7"), Some(b'7' as u32));
    assert_eq!(key_code("a"), Some(b'a' as u32));
    assert_eq!(key_code("AB"), None);
}

#[test]
fn enregistrement_des_deux_raccourcis() {
    assert_eq!(
        registrations("PrintScreen", "Shift+PrintScreen"),
        Some(((MOD_NOREPEAT, 0x2C), (MOD_SHIFT | MOD_NOREPEAT, 0x2C)))
    );
    assert_eq!(registrations("PrintScreen", "Ctrl+"), None);
    assert_eq!(registrations("bad key", "S"), None);
    assert_eq!(hotkey_for_id(ID_FULLSCREEN), Some(Hotkey::Fullscreen));
    assert_eq!(hotkey_for_id(ID_REGION), Some(Hotkey::Region));
    assert_eq!(hotkey_for_id(7), None);
}

#[test]
fn etapes_de_l_enregistrement() {
    assert_eq!(after_registering(Hotkey::Fullscreen, true), RegistrationStep::RegisterRegion);
    assert_eq!(after_registering(Hotkey::Fullscreen, false), RegistrationStep::Finished(false));
    assert_eq!(after_registering(Hotkey::Region, true), RegistrationStep::Finished(true));
    assert_eq!(after_registering(Hotkey::Region, false), RegistrationStep::UndoFullscreen);
}
