//! Loading the detection model.
use crate::app::AppState;
use crate::app::AppView;
use crate::inference::device_label;
use crate::inference::resolve_device;
use crate::inference::resolved;
use crate::inference::Device;
use crate::settings::SavedDefaults;
use crate::text::decimal;
use crate::text::decimal_text;
use crate::text::opt_text;
use vstd::prelude::*;
use vstd::string::StringExecFns;

verus! {

/// The model in use, and whether it is there yet.
#[derive(Debug)]
pub struct ModelState {
    pub weights_path: String,
    pub using_bundled: bool,
    pub ready: bool,
    pub model_status: String,
    pub model_load_time_ms: Option<u128>,
    pub model_loading: bool,
    pub resolved_device: Option<Device>,
}

/// The state of the model with texts as sequences.
pub struct ModelView {
    pub weights_path: Seq<char>,
    pub using_bundled: bool,
    pub ready: bool,
    pub model_status: Seq<char>,
    pub model_load_time_ms: Option<u128>,
    pub model_loading: bool,
    pub resolved_device: Option<Device>,
}

impl View for ModelState {
    type V = ModelView;

    open spec fn view(&self) -> ModelView {
        ModelView {
            weights_path: self.weights_path@,
            using_bundled: self.using_bundled,
            ready: self.ready,
            model_status: self.model_status@,
            model_load_time_ms: self.model_load_time_ms,
            model_loading: self.model_loading,
            resolved_device: self.resolved_device,
        }
    }
}

/// What stands in for a path where the bundled model is used.
pub open spec fn bundled_path() -> Seq<char> {
    "<embedded>"@
}

/// What stands in for a path where the bundled model is used.
pub fn bundled_weights() -> (r: String)
    ensures
        r@ == bundled_path(),
{
    "<embedded>".to_owned()
}

/// The model while it is being loaded.
pub open spec fn loading(m: ModelView) -> ModelView {
    ModelView {
        ready: false,
        model_load_time_ms: None,
        resolved_device: None,
        model_status: "Loading model…"@,
        model_loading: true,
        ..m
    }
}

/// The model once it has to be loaded again.
pub open spec fn unloaded(m: ModelView) -> ModelView {
    ModelView { ready: false, model_status: "Not loaded."@, model_load_time_ms: None, ..m }
}

/// What to load, and for which device.
#[derive(Debug)]
pub struct LoadRequest {
    pub bundled: bool,
    pub weights: String,
    pub device: Device,
    pub resolved: Device,
}

impl LoadRequest {
    /// The request is for the model that the state names.
    pub open spec fn is_for(&self, s: AppView, on_macos: bool) -> bool {
        &&& self.bundled == s.model.using_bundled
        &&& self.weights@ == s.model.weights_path
        &&& self.device == s.settings.device
        &&& self.resolved == resolved(s.settings.device, on_macos)
    }
}

/// What came of a load, as far as is known yet.
#[derive(Debug)]
pub enum LoadEvent {
    Loaded(Device),
    Failed(String),
    Pending,
    Died,
}

/// How the device is named: the automatic choice along with what it came to.
pub open spec fn device_shown(device: Device, found: Device) -> Seq<char> {
    if device == Device::Auto {
        device_label(device) + " ("@ + device_label(found) + ")"@
    } else {
        device_label(device)
    }
}

/// The state once something is heard of a load. Nothing is listened to unless a model is
/// being loaded.
pub open spec fn load_heard(s: AppView, event: LoadEvent, ms: u128) -> AppView {
    if !s.model.model_loading {
        s
    } else {
        match event {
            LoadEvent::Loaded(found) => {
                let shown = device_shown(s.settings.device, found);
                AppView {
                    model: ModelView {
                        ready: true,
                        model_load_time_ms: Some(ms),
                        resolved_device: Some(found),
                        model_status: "Loaded.\nDevice: "@ + shown + "\nLoad time: "@ + decimal(ms as nat) + " ms"@,
                        model_loading: false,
                        ..s.model
                    },
                    status: "Model loaded in "@ + decimal(ms as nat) + " ms (device: "@ + shown + ")."@,
                    ..s
                }
            },
            LoadEvent::Failed(e) => AppView {
                model: ModelView { model_status: "Load failed: "@ + e@, model_loading: false, ..s.model },
                status: "Model load failed: "@ + e@,
                ..s
            },
            LoadEvent::Pending => s,
            LoadEvent::Died => AppView {
                model: ModelView { model_status: "Load failed: worker died."@, model_loading: false, ..s.model },
                ..s
            },
        }
    }
}

impl AppState {
    /// Starts loading the model, unless that is under way, and tells what to load.
    pub fn start_model_load(&mut self, on_macos: bool) -> (r: Option<LoadRequest>)
        ensures
            r is Some <==> !old(self)@.model.model_loading,
            r matches Some(req) ==> req.is_for(old(self)@, on_macos),
            r matches Some(req) ==> {
                &&& req.bundled == old(self).model.using_bundled
                &&& req.weights@ == old(self).model.weights_path@
                &&& req.device == old(self).settings.device
                &&& req.device != Device::Auto ==> req.resolved == req.device
                &&& req.device == Device::Auto ==> req.resolved == (if on_macos {
                    Device::CoreML
                } else {
                    Device::Cpu
                })
            },
            final(self)@ == (if old(self)@.model.model_loading {
                old(self)@
            } else {
                AppView { model: loading(old(self)@.model), ..old(self)@ }
            }),
    {
        if self.model.model_loading {
            return None;
        }
        self.model.ready = false;
        self.model.model_load_time_ms = None;
        self.model.resolved_device = None;
        self.model.model_status = "Loading model…".to_owned();
        self.model.model_loading = true;
        let device = self.settings.device;
        Some(
            LoadRequest {
                bundled: self.model.using_bundled,
                weights: self.model.weights_path.clone(),
                device,
                resolved: resolve_device(device, on_macos),
            },
        )
    }

    /// Takes in what is heard of the load, `ms` milliseconds after it was started.
    pub fn drain_model_load(&mut self, event: LoadEvent, ms: u128)
        ensures
            final(self)@ == load_heard(old(self)@, event, ms),
    {
        if !self.model.model_loading {
            return;
        }
        match event {
            LoadEvent::Loaded(found) => {
                self.model.ready = true;
                self.model.model_load_time_ms = Some(ms);
                self.model.resolved_device = Some(found);
                let mut shown = self.settings.device.label().to_owned();
                if self.settings.device == Device::Auto {
                    shown.append(" (");
                    shown.append(found.label());
                    shown.append(")");
                }
                let took = decimal_text(ms);
                let mut text = "Loaded.\nDevice: ".to_owned();
                text.append(shown.as_str());
                text.append("\nLoad time: ");
                text.append(took.as_str());
                text.append(" ms");
                self.model.model_status = text;
                let mut status = "Model loaded in ".to_owned();
                status.append(took.as_str());
                status.append(" ms (device: ");
                status.append(shown.as_str());
                status.append(").");
                self.status = status;
                self.model.model_loading = false;
            },
            LoadEvent::Failed(e) => {
                let mut text = "Load failed: ".to_owned();
                text.append(e.as_str());
                self.model.model_status = text;
                let mut status = "Model load failed: ".to_owned();
                status.append(e.as_str());
                self.status = status;
                self.model.model_loading = false;
            },
            LoadEvent::Pending => {},
            LoadEvent::Died => {
                self.model.model_status = "Load failed: worker died.".to_owned();
                self.model.model_loading = false;
            },
        }
    }

    /// Takes the weights from a file, if one was picked.
    pub fn pick_weights(&mut self, picked: Option<String>)
        ensures
            final(self)@ == (match opt_text(picked) {
                Some(path) => AppView {
                    model: ModelView {
                        weights_path: path,
                        using_bundled: false,
                        ..unloaded(old(self)@.model)
                    },
                    ..old(self)@
                },
                None => old(self)@,
            }),
    {
        match picked {
            Some(path) => {
                self.model.weights_path = path;
                self.model.using_bundled = false;
                self.model.ready = false;
                self.model.model_status = "Not loaded.".to_owned();
                self.model.model_load_time_ms = None;
            },
            None => {},
        }
    }

    /// Chooses a device. Another device than before needs the model loaded again.
    pub fn choose_device(&mut self, d: Device)
        ensures
            final(self)@ == (if d == old(self)@.settings.device {
                old(self)@
            } else {
                AppView {
                    settings: SavedDefaults { device: d, ..old(self)@.settings },
                    model: unloaded(old(self)@.model),
                    ..old(self)@
                }
            }),
    {
        if self.settings.device != d {
            self.settings.device = d;
            self.model.ready = false;
            self.model.model_status = "Not loaded.".to_owned();
            self.model.model_load_time_ms = None;
        }
    }

    /// What the button that loads the model says.
    pub fn load_button_text(&self) -> (r: &'static str)
        ensures
            r@ == (if self@.model.ready {
                "Reload model"@
            } else {
                "Load model"@
            }),
    {
        if self.model.ready {
            "Reload model"
        } else {
            "Load model"
        }
    }

    /// Goes back to the bundled weights.
    pub fn reset_weights(&mut self)
        ensures
            final(self)@ == (AppView {
                model: ModelView {
                    weights_path: bundled_path(),
                    using_bundled: true,
                    ..unloaded(old(self)@.model)
                },
                ..old(self)@
            }),
    {
        self.model.weights_path = bundled_weights();
        self.model.using_bundled = true;
        self.model.ready = false;
        self.model.model_status = "Not loaded.".to_owned();
        self.model.model_load_time_ms = None;
    }
}

/// A load ends with what was asked for: the model is ready just where it was loaded, and
/// whatever is heard of it but that it is pending ends the loading.
pub proof fn load_ends(s: AppView, event: LoadEvent, ms: u128)
    requires
        s.model == loading(s.model),
    ensures
        load_heard(s, event, ms).model.ready <==> event is Loaded,
        load_heard(s, event, ms).model.model_loading <==> event is Pending,
        load_heard(load_heard(s, LoadEvent::Died, ms), event, ms) == load_heard(s, LoadEvent::Died, ms),
{
}

/// A model that is being loaded, or has to be loaded again, is not ready and has no load time;
/// which model it is stays.
pub proof fn loading_keeps_which_model(m: ModelView)
    ensures
        loading(m) == (ModelView {
            ready: false,
            model_load_time_ms: None,
            resolved_device: None,
            model_status: "Loading model…"@,
            model_loading: true,
            weights_path: m.weights_path,
            using_bundled: m.using_bundled,
        }),
        unloaded(m) == (ModelView {
            ready: false,
            model_load_time_ms: None,
            resolved_device: m.resolved_device,
            model_status: "Not loaded."@,
            model_loading: m.model_loading,
            weights_path: m.weights_path,
            using_bundled: m.using_bundled,
        }),
        bundled_path() == "<embedded>"@,
{
}

/// What is heard of a load changes just the model and what is said, and nothing unless a model is
/// being loaded. A loaded model is ready, with the device found and the time it took; a failed
/// one leaves the model as it is but for the end of the loading, with the reason said.
pub proof fn load_news_changes_what_it_tells(s: AppView, event: LoadEvent, ms: u128)
    ensures
        ({
            let t = load_heard(s, event, ms);
            &&& !s.model.model_loading || event is Pending ==> t == s
            &&& s.model.model_loading ==> (event matches LoadEvent::Loaded(found) ==> ({
                let shown = if s.settings.device == Device::Auto {
                    device_label(s.settings.device) + " ("@ + device_label(found) + ")"@
                } else {
                    device_label(s.settings.device)
                };
                t == (AppView {
                    model: ModelView {
                        ready: true,
                        model_loading: false,
                        model_load_time_ms: Some(ms),
                        resolved_device: Some(found),
                        model_status: "Loaded.\nDevice: "@ + shown + "\nLoad time: "@ + decimal(ms as nat) + " ms"@,
                        ..s.model
                    },
                    status: "Model loaded in "@ + decimal(ms as nat) + " ms (device: "@ + shown + ")."@,
                    ..s
                })
            }))
            &&& s.model.model_loading ==> (event matches LoadEvent::Failed(e) ==> t == (AppView {
                model: ModelView { model_loading: false, model_status: "Load failed: "@ + e@, ..s.model },
                status: "Model load failed: "@ + e@,
                ..s
            }))
            &&& s.model.model_loading && event is Died ==> t == (AppView {
                model: ModelView { model_loading: false, model_status: "Load failed: worker died."@, ..s.model },
                ..s
            })
        }),
{
}

} // verus!
