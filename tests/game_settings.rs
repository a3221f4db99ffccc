use beam_patcher::decimal::parse_u32_exec;
use beam_patcher::game_settings::{
    modify_ini, new_ini, settings_from_ini, update_ini_value, GameSettings, GameSettingsManager,
};

fn settings(w: u32, h: u32, fs: bool, snd: bool, bgm: bool, mouse: bool) -> GameSettings {
    GameSettings {
        resolution_width: w,
        resolution_height: h,
        fullscreen: fs,
        sound_enabled: snd,
        bgm_enabled: bgm,
        mouse_freedom: mouse,
        vsync: true,
    }
}

#[test]
fn default_settings_values() {
    assert_eq!(GameSettings::default(), settings(1920, 1080, false, true, true, true));
}

#[test]
fn fresh_ini_text() {
    let text = new_ini(&settings(1024, 768, true, false, true, false));
    assert_eq!(
        String::from_utf8(text).unwrap(),
        "[SETTING]\nWIDTH=1024\nHEIGHT=768\nSCREENMODE=1\nISFULLSCREENMODE=1\nSOUNDVOLUME=0\nBGMVOLUME=100\nMOUSEEXCLUSIVE=1\nSPRITE=3\nTEXTURE=3\nDIGITAL=0\n"
    );
}

#[test]
fn existing_ini_keys_updated_in_place() {
    let text = modify_ini(b"[SETTING]\r\nWIDTH=800\r\nFOO=bar\n", &GameSettings::default());
    assert_eq!(
        String::from_utf8(text).unwrap(),
        "[SETTING]\nWIDTH=1920\nFOO=bar\nHEIGHT=1080\nSCREENMODE=0\nSOUNDVOLUME=100\nBGMVOLUME=100\nISFULLSCREENMODE=0\nMOUSEEXCLUSIVE=0"
    );
}

#[test]
fn update_replaces_only_first_match() {
    let mut lines = vec![b"A=1".to_vec(), b"AB=2".to_vec(), b"A=3".to_vec()];
    update_ini_value(&mut lines, b"A", b"9");
    assert_eq!(lines, vec![b"A=9".to_vec(), b"AB=2".to_vec(), b"A=3".to_vec()]);
    update_ini_value(&mut lines, b"C", b"x");
    assert_eq!(lines.len(), 4);
    assert_eq!(lines[3], b"C=x".to_vec());
}

#[test]
fn ini_read_into_settings() {
    let s = settings_from_ini(
        b" WIDTH = 1024 \nHEIGHT=abc\nSCREENMODE=1\nSOUNDVOLUME=0\nBGMVOLUME=+50\nMOUSEEXCLUSIVE=1\nnoise\n",
    );
    assert_eq!(s, settings(1024, 1080, true, false, true, false));
}

#[test]
fn manager_uses_defaults_without_a_file() {
    let m = GameSettingsManager::new("C:/Games/RO");
    assert_eq!(m.game_directory, "C:/Games/RO");
    assert_eq!(m.load_settings(None), GameSettings::default());
    let fresh = m.apply_settings(None, &GameSettings::default());
    assert!(fresh.starts_with(b"[SETTING]\nWIDTH=1920\n"));
    let updated = m.apply_settings(Some(b"WIDTH=1"), &GameSettings::default());
    assert!(updated.starts_with(b"WIDTH=1920\n"));
    assert_eq!(m.load_settings(Some(b"WIDTH=640")).resolution_width, 640);
}

#[test]
fn number_parsing_like_from_str() {
    assert_eq!(parse_u32_exec(b"0"), Some(0));
    assert_eq!(parse_u32_exec(b"+17"), Some(17));
    assert_eq!(parse_u32_exec(b"4294967295"), Some(u32::MAX));
    assert_eq!(parse_u32_exec(b"4294967296"), None);
    assert_eq!(parse_u32_exec(b""), None);
    assert_eq!(parse_u32_exec(b"+"), None);
    assert_eq!(parse_u32_exec(b"-1"), None);
    assert_eq!(parse_u32_exec(b"12a"), None);
}
