use vstd::prelude::*;

verus! {

/// Why a configuration was refused.
#[derive(Debug, Clone, Copy, PartialEq, Eq, Structural)]
pub enum ConfigError {
    /// No download mirror is configured.
    NoMirror,
    /// The patch-list URL is empty.
    EmptyPatchListUrl,
    /// The target GRF name is empty.
    EmptyTargetGrf,
}

/// Application identity and game location.
#[derive(Debug)]
pub struct AppConfig {
    pub name: String,
    pub version: String,
    pub window_title: String,
    pub game_directory: Option<String>,
    pub client_exe: String,
    pub setup_exe: Option<String>,
    pub bgm_autoplay: Option<bool>,
    pub bgm_file: Option<String>,
    pub server_name: Option<String>,
    pub video_background_enabled: Option<bool>,
    pub video_background_file: Option<String>,
}

/// A download mirror; lower `priority` is tried first.
#[derive(Debug)]
pub struct MirrorConfig {
    pub name: String,
    pub url: String,
    pub priority: u32,
}

/// Where patches come from and what they are applied to.
#[derive(Debug)]
pub struct PatcherConfig {
    pub mirrors: Vec<MirrorConfig>,
    pub patch_list_url: String,
    pub target_grf: String,
    pub allow_manual_patch: bool,
    pub verify_checksums: bool,
}

/// Position of a custom button.
#[derive(Debug)]
pub struct ButtonPosition {
    pub x: String,
    pub y: String,
}

/// A custom button of the launcher window.
#[derive(Debug)]
pub struct CustomButton {
    pub label: String,
    pub image: Option<String>,
    pub url: String,
    pub position: ButtonPosition,
}

/// Window size and layout.
#[derive(Debug)]
pub struct LayoutConfig {
    pub width: u32,
    pub height: u32,
    pub use_custom_layout: bool,
}

/// Look of the launcher window.
#[derive(Debug)]
pub struct UiConfig {
    pub theme: String,
    pub custom_css: Option<String>,
    pub logo: Option<String>,
    pub background: Option<String>,
    pub show_progress: bool,
    pub show_file_list: bool,
    pub news_feed_url: Option<String>,
    pub server_status_url: Option<String>,
    pub custom_buttons: Vec<CustomButton>,
    pub layout: LayoutConfig,
}

/// Single sign-on endpoints.
#[derive(Debug)]
pub struct SsoConfig {
    pub enabled: bool,
    pub login_url: String,
    pub token_url: String,
    pub client_id: String,
    pub redirect_uri: String,
}

/// Self-update endpoints.
#[derive(Debug)]
pub struct UpdaterConfig {
    pub enabled: bool,
    pub check_url: String,
    pub update_url: String,
    pub auto_update: bool,
}

/// Game server addresses.
#[derive(Debug)]
pub struct ServerConfig {
    pub login_server_ip: String,
    pub login_server_port: u16,
    pub char_server_ip: String,
    pub char_server_port: u16,
    pub map_server_ip: String,
    pub map_server_port: u16,
}

/// The whole launcher configuration.
#[derive(Debug)]
pub struct Config {
    pub app: AppConfig,
    pub patcher: PatcherConfig,
    pub ui: UiConfig,
    pub sso: Option<SsoConfig>,
    pub updater: Option<UpdaterConfig>,
    pub server: Option<ServerConfig>,
}

/// The first rule that `c` breaks, if any.
pub open spec fn config_check(c: Config) -> Result<(), ConfigError> {
    if c.patcher.mirrors@.len() == 0 {
        Err(ConfigError::NoMirror)
    } else if c.patcher.patch_list_url@.len() == 0 {
        Err(ConfigError::EmptyPatchListUrl)
    } else if c.patcher.target_grf@.len() == 0 {
        Err(ConfigError::EmptyTargetGrf)
    } else {
        Ok(())
    }
}

fn text(s: &str) -> (r: String)
    ensures
        r@ == s@,
{
    s.to_owned()
}

impl Config {
    /// Checks that at least one mirror is configured and that the patch-list
    /// URL and the target GRF are not empty, in that order.
    pub fn validate(&self) -> (r: Result<(), ConfigError>)
        ensures
            r == config_check(*self),
    {
        if self.patcher.mirrors.len() == 0 {
            return Err(ConfigError::NoMirror);
        }
        if self.patcher.patch_list_url.as_str().is_empty() {
            return Err(ConfigError::EmptyPatchListUrl);
        }
        if self.patcher.target_grf.as_str().is_empty() {
            return Err(ConfigError::EmptyTargetGrf);
        }
        Ok(())
    }

    /// The configuration used when none is given: one mirror, the target
    /// `data.grf`, manual patching allowed, checksums verified.
    pub fn default() -> (r: Config)
        ensures
            config_check(r) == Ok::<(), ConfigError>(()),
            r.patcher.mirrors@.len() == 1,
            r.patcher.mirrors@[0].priority == 1,
            r.patcher.target_grf@ == "data.grf"@,
            r.patcher.patch_list_url@ == "https://patch.example.com/patchlist.txt"@,
            r.patcher.allow_manual_patch,
            r.patcher.verify_checksums,
            r.app.game_directory is None,
            r.app.client_exe@ == "Ragnarok.exe"@,
            r.ui.layout.width == 800 && r.ui.layout.height == 600,
    {
        proof {
            reveal_strlit("data.grf");
            reveal_strlit("https://patch.example.com/patchlist.txt");
        }
        let mirrors: Vec<MirrorConfig> = vec![MirrorConfig {
            name: text("Primary Mirror"),
            url: text("https://patch.example.com"),
            priority: 1,
        }];
        Config {
            app: AppConfig {
                name: text("Beam Patcher"),
                version: text("1.0.0"),
                window_title: text("Beam Patcher - Modern RO Patcher"),
                game_directory: None,
                client_exe: text("Ragnarok.exe"),
                setup_exe: Some(text("setup.exe")),
                bgm_autoplay: Some(false),
                bgm_file: None,
                server_name: Some(text("MyRO")),
                video_background_enabled: Some(false),
                video_background_file: None,
            },
            patcher: PatcherConfig {
                mirrors,
                patch_list_url: text("https://patch.example.com/patchlist.txt"),
                target_grf: text("data.grf"),
                allow_manual_patch: true,
                verify_checksums: true,
            },
            ui: UiConfig {
                theme: text("default"),
                custom_css: None,
                logo: None,
                background: None,
                show_progress: true,
                show_file_list: true,
                news_feed_url: None,
                server_status_url: None,
                custom_buttons: Vec::new(),
                layout: LayoutConfig { width: 800, height: 600, use_custom_layout: false },
            },
            sso: Some(SsoConfig {
                enabled: false,
                login_url: text("https://auth.example.com/login"),
                token_url: text("https://auth.example.com/token"),
                client_id: text("beam-patcher"),
                redirect_uri: text("http://localhost:8080/callback"),
            }),
            updater: Some(UpdaterConfig {
                enabled: true,
                check_url: text("https://patch.example.com/version.json"),
                update_url: text("https://patch.example.com/updates"),
                auto_update: false,
            }),
            server: Some(ServerConfig {
                login_server_ip: text("127.0.0.1"),
                login_server_port: 6900,
                char_server_ip: text("127.0.0.1"),
                char_server_port: 6121,
                map_server_ip: text("127.0.0.1"),
                map_server_port: 5121,
            }),
        }
    }
}

} // verus!
