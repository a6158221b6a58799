//! The settings of an analysis, and when a change of them matters.
use crate::inference::Device;
use crate::scalar::Scalar;
use crate::static_filter::StaticFilterConfig;
use crate::types::AnalysisParameters;
use vstd::prelude::*;
use vstd::string::StringExecFns;

verus! {

/// Every setting that is kept between sessions.
#[derive(Clone, Copy, Debug)]
pub struct SavedDefaults {
    pub device: Device,
    pub conf: Scalar,
    pub iou: Scalar,
    pub max_det: usize,
    pub reject_static: bool,
    pub params: AnalysisParameters,
    pub static_cfg: StaticFilterConfig,
}

impl SavedDefaults {
    /// The settings of a first start: confidence 0.55, overlap 0.45, a thousand
    /// detections, static detections rejected.
    pub open spec fn initial() -> SavedDefaults {
        SavedDefaults {
            device: Device::Auto,
            conf: Scalar { bits: 0x3f0c_cccd },
            iou: Scalar { bits: 0x3ee6_6666 },
            max_det: 1000,
            reject_static: true,
            params: AnalysisParameters::initial(),
            static_cfg: StaticFilterConfig::initial(),
        }
    }
}

impl Default for SavedDefaults {
    fn default() -> (r: SavedDefaults)
        ensures
            r == SavedDefaults::initial(),
            r.device == Device::Auto,
            r.conf.bits == 0x3f0c_cccd,
            r.iou.bits == 0x3ee6_6666,
            r.max_det == 1000,
            r.reject_static,
            r.params == AnalysisParameters::initial(),
            r.static_cfg == StaticFilterConfig::initial(),
    {
        SavedDefaults {
            device: Device::Auto,
            conf: Scalar::from_bits(0x3f0c_cccd),
            iou: Scalar::from_bits(0x3ee6_6666),
            max_det: 1000,
            reject_static: true,
            params: AnalysisParameters::default(),
            static_cfg: StaticFilterConfig::default(),
        }
    }
}

/// The settings that results depend on, numbers by their bit patterns.
#[derive(Clone, Copy, Debug, PartialEq, Eq, Structural)]
pub struct SettingsSnapshot {
    pub conf: u32,
    pub iou: u32,
    pub max_det: usize,
    pub scale: u32,
    pub vol: u32,
    pub min_d: u32,
    pub max_d: u32,
    pub reject_static: bool,
    pub min_frame_frac: u32,
    pub tol_px: u32,
    pub diam_tol: u32,
}

/// The snapshot of some settings.
pub open spec fn snapshot_of(s: SavedDefaults) -> SettingsSnapshot {
    SettingsSnapshot {
        conf: s.conf.bits,
        iou: s.iou.bits,
        max_det: s.max_det,
        scale: s.params.scale_um_per_pixel.bits,
        vol: s.params.sample_volume_per_frame_ul.bits,
        min_d: s.params.min_diameter_um.bits,
        max_d: s.params.max_diameter_um.bits,
        reject_static: s.reject_static,
        min_frame_frac: s.static_cfg.min_frame_frac.bits,
        tol_px: s.static_cfg.tol_px.bits,
        diam_tol: s.static_cfg.diameter_tol_frac.bits,
    }
}

impl SavedDefaults {
    /// The snapshot of these settings.
    pub fn snapshot(&self) -> (r: SettingsSnapshot)
        ensures
            r == snapshot_of(*self),
            r.conf == self.conf.bits,
            r.iou == self.iou.bits,
            r.max_det == self.max_det,
            r.scale == self.params.scale_um_per_pixel.bits,
            r.vol == self.params.sample_volume_per_frame_ul.bits,
            r.min_d == self.params.min_diameter_um.bits,
            r.max_d == self.params.max_diameter_um.bits,
            r.reject_static == self.reject_static,
            r.min_frame_frac == self.static_cfg.min_frame_frac.bits,
            r.tol_px == self.static_cfg.tol_px.bits,
            r.diam_tol == self.static_cfg.diameter_tol_frac.bits,
    {
        SettingsSnapshot {
            conf: self.conf.bits,
            iou: self.iou.bits,
            max_det: self.max_det,
            scale: self.params.scale_um_per_pixel.bits,
            vol: self.params.sample_volume_per_frame_ul.bits,
            min_d: self.params.min_diameter_um.bits,
            max_d: self.params.max_diameter_um.bits,
            reject_static: self.reject_static,
            min_frame_frac: self.static_cfg.min_frame_frac.bits,
            tol_px: self.static_cfg.tol_px.bits,
            diam_tol: self.static_cfg.diameter_tol_frac.bits,
        }
    }
}

/// Two settings have the same snapshot just where they differ at most in the device and
/// the bin size, which no result depends on.
pub proof fn snapshot_tells_settings_apart(a: SavedDefaults, b: SavedDefaults)
    ensures
        snapshot_of(a) == snapshot_of(b) <==> a == (SavedDefaults {
            device: a.device,
            params: AnalysisParameters { bin_size_um: a.params.bin_size_um, ..b.params },
            ..b
        }),
{
}

/// The systems that keep settings in different places.
#[derive(Clone, Copy, Debug, PartialEq, Eq, Structural)]
pub enum Platform {
    MacOs,
    Windows,
    Other,
}

/// The environment variable that names a directory.
#[derive(Clone, Copy, Debug, PartialEq, Eq, Structural)]
pub enum BaseDir {
    Home,
    AppData,
    XdgConfigHome,
}

/// Which of the variables are set.
#[derive(Clone, Copy, Debug)]
pub struct BaseDirsSet {
    pub home: bool,
    pub app_data: bool,
    pub xdg_config_home: bool,
}

/// Where the settings are kept: the parts of the path below a directory.
#[derive(Debug)]
pub struct DefaultsPath {
    pub base: BaseDir,
    pub parts: Vec<String>,
}

/// The directory that the settings lie below, where there is one.
pub open spec fn base_of(platform: Platform, set: BaseDirsSet) -> Option<BaseDir> {
    match platform {
        Platform::MacOs => if set.home {
            Some(BaseDir::Home)
        } else {
            None
        },
        Platform::Windows => if set.app_data {
            Some(BaseDir::AppData)
        } else {
            None
        },
        Platform::Other => if set.xdg_config_home {
            Some(BaseDir::XdgConfigHome)
        } else if set.home {
            Some(BaseDir::Home)
        } else {
            None
        },
    }
}

/// The parts of the path below that directory.
pub open spec fn parts_of(platform: Platform, base: BaseDir) -> Seq<Seq<char>> {
    match (platform, base) {
        (Platform::MacOs, _) => seq!["Library/Application Support/bsnobs"@, "defaults.json"@],
        (Platform::Other, BaseDir::Home) => seq![".config"@, "bsnobs"@, "defaults.json"@],
        _ => seq!["bsnobs"@, "defaults.json"@],
    }
}

/// Where the settings are kept, where the environment names a place.
pub fn defaults_path(platform: Platform, set: BaseDirsSet) -> (r: Option<DefaultsPath>)
    ensures
        r is Some <==> base_of(platform, set) is Some,
        r matches Some(p) ==> {
            &&& p.base == base_of(platform, set).unwrap()
            &&& p.parts@.map_values(|t: String| t@) == parts_of(platform, p.base)
            &&& p.parts@.last()@ == "defaults.json"@
        },
        platform == Platform::MacOs ==> (r is Some <==> set.home),
        platform == Platform::Windows ==> (r is Some <==> set.app_data),
        platform == Platform::Other ==> (r is Some <==> set.xdg_config_home || set.home),
        r matches Some(p) ==> {
            &&& p.base == BaseDir::Home ==> set.home && platform != Platform::Windows
            &&& p.base == BaseDir::AppData ==> set.app_data && platform == Platform::Windows
            &&& p.base == BaseDir::XdgConfigHome ==> set.xdg_config_home && platform == Platform::Other
            &&& platform == Platform::Other && set.xdg_config_home ==> p.base == BaseDir::XdgConfigHome
            &&& platform == Platform::MacOs ==> p.parts@.len() == 2 && p.parts@[0]@ == "Library/Application Support/bsnobs"@
            &&& platform == Platform::Other && p.base == BaseDir::Home ==> p.parts@.len() == 3 && p.parts@[0]@
                == ".config"@ && p.parts@[1]@ == "bsnobs"@
            &&& p.base != BaseDir::Home ==> p.parts@.len() == 2 && p.parts@[0]@ == "bsnobs"@
        },
{
    let base = match platform {
        Platform::MacOs => {
            if !set.home {
                return None;
            }
            BaseDir::Home
        },
        Platform::Windows => {
            if !set.app_data {
                return None;
            }
            BaseDir::AppData
        },
        Platform::Other => {
            if set.xdg_config_home {
                BaseDir::XdgConfigHome
            } else if set.home {
                BaseDir::Home
            } else {
                return None;
            }
        },
    };
    let mut parts: Vec<String> = Vec::new();
    match (platform, base) {
        (Platform::MacOs, _) => {
            parts.push("Library/Application Support/bsnobs".to_owned());
        },
        (Platform::Other, BaseDir::Home) => {
            parts.push(".config".to_owned());
            parts.push("bsnobs".to_owned());
        },
        _ => {
            parts.push("bsnobs".to_owned());
        },
    }
    parts.push("defaults.json".to_owned());
    assert(parts@.map_values(|t: String| t@) =~= parts_of(platform, base));
    Some(DefaultsPath { base, parts })
}

/// What came of saving the settings.
#[derive(Debug)]
pub enum SaveOutcome {
    SavedTo(String),
    Saved,
    Failed(String),
}

/// What is said after the settings were saved or could not be.
pub open spec fn save_text(o: SaveOutcome) -> Seq<char> {
    match o {
        SaveOutcome::SavedTo(path) => "Saved defaults to "@ + path@,
        SaveOutcome::Saved => "Saved defaults."@,
        SaveOutcome::Failed(e) => "Could not save defaults: "@ + e@,
    }
}

/// What is said after the settings were saved or could not be.
pub fn save_status(outcome: &SaveOutcome) -> (r: String)
    ensures
        r@ == save_text(*outcome),
        *outcome matches SaveOutcome::SavedTo(path) ==> r@ == "Saved defaults to "@ + path@,
        *outcome is Saved ==> r@ == "Saved defaults."@,
        *outcome matches SaveOutcome::Failed(e) ==> r@ == "Could not save defaults: "@ + e@,
{
    match outcome {
        SaveOutcome::SavedTo(path) => {
            let mut r = "Saved defaults to ".to_owned();
            r.append(path.as_str());
            r
        },
        SaveOutcome::Saved => "Saved defaults.".to_owned(),
        SaveOutcome::Failed(e) => {
            let mut r = "Could not save defaults: ".to_owned();
            r.append(e.as_str());
            r
        },
    }
}

} // verus!
