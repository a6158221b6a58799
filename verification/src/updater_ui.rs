//! How looking for updates shows in the program.
use crate::app::AppState;
use crate::app::AppView;
use crate::text::opt_text;
use crate::updater::heard;
use crate::updater::opt_message;
use crate::updater::started;
use crate::updater::this_version;
use crate::updater::MessageView;
use crate::updater::UpdateMessage;
use crate::updater::UpdateUi;
use vstd::prelude::*;
use vstd::string::StringExecFns;

verus! {

/// The state once a message about updates has come: a newer version is offered, one that
/// was installed asks for a restart.
pub open spec fn update_heard(s: AppView, m: MessageView) -> AppView {
    if !s.updater.busy {
        s
    } else {
        AppView {
            updater: heard(s.updater, m),
            show_update_modal: s.show_update_modal || m is Available,
            show_restart_modal: s.show_restart_modal || m is Installed,
            ..s
        }
    }
}

/// What goes into the log when a message about updates has come.
pub open spec fn update_warning(s: AppView, m: Option<MessageView>) -> Option<Seq<char>> {
    match m {
        Some(MessageView::Error(e)) => if s.updater.busy {
            Some("update check failed: "@ + e)
        } else {
            None
        },
        _ => None,
    }
}

/// The state once the check at the start was made: it is made once.
pub open spec fn auto_checked(s: AppView) -> AppView {
    if s.updater_auto_checked {
        s
    } else {
        AppView { updater_auto_checked: true, updater: started(s.updater), ..s }
    }
}

/// The state after the answer to an offer: closed, put off or taken, it is no longer shown.
pub open spec fn offer_answered(s: AppView, open: bool, install: bool, later: bool) -> AppView {
    if !s.show_update_modal {
        s
    } else {
        AppView {
            show_update_modal: open && !install && !later,
            updater: if install {
                started(s.updater)
            } else {
                s.updater
            },
            ..s
        }
    }
}

/// What is shown of the updates in the status line.
#[derive(Debug)]
pub struct UpdateWidget {
    pub busy: bool,
    pub offer: bool,
    pub version: String,
    pub up_to_date: bool,
}

impl AppState {
    /// Notes that the check at the start was made, and tells whether to start it.
    pub fn auto_check(&mut self) -> (start: bool)
        ensures
            start == (!old(self)@.updater_auto_checked && !old(self)@.updater.busy),
            final(self)@ == auto_checked(old(self)@),
    {
        if self.updater_auto_checked {
            return false;
        }
        self.updater_auto_checked = true;
        self.updater.check()
    }

    /// Takes in a message about updates, if one has come, and gives what to put in the log.
    pub fn drain_updater(&mut self, received: Option<UpdateMessage>) -> (warning: Option<String>)
        ensures
            final(self)@ == (match opt_message(received) {
                Some(m) => update_heard(old(self)@, m),
                None => old(self)@,
            }),
            opt_text(warning) == update_warning(old(self)@, opt_message(received)),
    {
        let mut warning: Option<String> = None;
        if self.updater.poll(received) {
            match &self.updater.last {
                Some(UpdateMessage::Available { .. }) => {
                    self.show_update_modal = true;
                },
                Some(UpdateMessage::Installed { .. }) => {
                    self.show_restart_modal = true;
                },
                Some(UpdateMessage::Error(e)) => {
                    let mut text = "update check failed: ".to_owned();
                    text.append(e.as_str());
                    warning = Some(text);
                },
                _ => {},
            }
        }
        warning
    }

    /// What is shown of the updates in the status line.
    pub fn update_widget(&self) -> (r: UpdateWidget)
        ensures
            r.busy == self@.updater.busy,
            r.offer == (self@.updater.available is Some),
            r.version@ == "v"@ + this_version(),
            r.up_to_date == (self@.updater.last == Some(MessageView::UpToDate)),
    {
        let mut version = "v".to_owned();
        version.append(UpdateUi::current_version());
        let up_to_date: bool = match &self.updater.last {
            Some(UpdateMessage::UpToDate) => true,
            _ => false,
        };
        UpdateWidget { busy: self.updater.busy, offer: self.updater.available.is_some(), version, up_to_date }
    }

    /// Shows the offer of a newer version.
    pub fn show_offer(&mut self)
        ensures
            final(self)@ == (AppView { show_update_modal: true, ..old(self)@ }),
    {
        self.show_update_modal = true;
    }

    /// What the offer of a newer version says.
    pub fn offer_text(&self) -> (r: String)
        ensures
            r@ == "A newer version of BSnoBS is available.\nYou are running v"@ + this_version() + "."@,
    {
        let mut text = "A newer version of BSnoBS is available.\nYou are running v".to_owned();
        text.append(UpdateUi::current_version());
        text.append(".");
        text
    }

    /// Takes in the answer to the offer: whether it is still open, and which button was
    /// pressed. Tells whether to start the installation.
    pub fn answer_offer(&mut self, open: bool, install: bool, later: bool) -> (start: bool)
        ensures
            final(self)@ == offer_answered(old(self)@, open, install, later),
            start == (old(self)@.show_update_modal && install && !old(self)@.updater.busy),
    {
        if !self.show_update_modal {
            return false;
        }
        if later || !open {
            self.show_update_modal = false;
        }
        if install {
            self.show_update_modal = false;
            return self.updater.install();
        }
        false
    }

    /// What the request for a restart says.
    pub fn restart_text(&self) -> (r: String)
        ensures
            r@ == "BSnoBS v"@ + (match self@.updater.last {
                Some(MessageView::Installed { new_version }) => new_version,
                _ => "the new version"@,
            }) + " has been installed."@,
    {
        let mut text = "BSnoBS v".to_owned();
        match &self.updater.last {
            Some(UpdateMessage::Installed { new_version }) => {
                text.append(new_version.as_str());
            },
            _ => {
                text.append("the new version");
            },
        }
        text.append(" has been installed.");
        text
    }

    /// Takes in whether the request for a restart is still open.
    pub fn answer_restart(&mut self, open: bool)
        ensures
            final(self)@ == (AppView {
                show_restart_modal: old(self)@.show_restart_modal && open,
                ..old(self)@
            }),
    {
        if !open {
            self.show_restart_modal = false;
        }
    }
}

/// The check at the start is made once: looking again starts nothing more, whatever was
/// heard in between.
pub proof fn auto_check_is_made_once(s: AppView, m: MessageView)
    ensures
        auto_checked(auto_checked(s)) == auto_checked(s),
        auto_checked(update_heard(auto_checked(s), m)) == update_heard(auto_checked(s), m),
{
}

/// Taking an offer hides it and starts what ends in a request for a restart, or in no offer
/// at all where nothing was applied.
pub proof fn taken_offer_ends_in_restart(s: AppView, version: Seq<char>)
    requires
        s.show_update_modal,
        !s.updater.busy,
    ensures
        ({
            let t = offer_answered(s, true, true, false);
            let done = update_heard(t, MessageView::Installed { new_version: version });
            let none = update_heard(t, MessageView::NoUpdateApplied);
            &&& !t.show_update_modal && t.updater.busy
            &&& done.show_restart_modal && !done.show_update_modal && done.updater.available is None
            &&& none.show_restart_modal == s.show_restart_modal && none.updater.available is None
        }),
{
}

/// A message about updates touches nothing unless one is waited for. A newer version shows the
/// offer, an installed one asks for a restart, and neither is hidden by a message. Only an error
/// that is waited for goes into the log.
pub proof fn update_news_changes_what_it_tells(s: AppView, m: MessageView)
    ensures
        ({
            let t = update_heard(s, m);
            &&& !s.updater.busy ==> t == s && update_warning(s, Some(m)) is None
            &&& t == (AppView {
                updater: t.updater,
                show_update_modal: t.show_update_modal,
                show_restart_modal: t.show_restart_modal,
                ..s
            })
            &&& s.updater.busy ==> !t.updater.busy && t.updater.last == Some(m)
            &&& s.updater.busy && m is Available ==> t.show_update_modal
            &&& !(m is Available) ==> t.show_update_modal == s.show_update_modal
            &&& s.updater.busy && m is Installed ==> t.show_restart_modal
            &&& !(m is Installed) ==> t.show_restart_modal == s.show_restart_modal
            &&& s.updater.busy ==> (m matches MessageView::Error(e) ==> update_warning(s, Some(m)) == Some(
                "update check failed: "@ + e,
            ))
            &&& !(m is Error) ==> update_warning(s, Some(m)) is None
            &&& update_warning(s, None) is None
        }),
{
}

/// The check at the start changes nothing the second time, and the first time notes that it was
/// made and starts a check unless something is under way.
pub proof fn auto_check_starts_a_check(s: AppView)
    ensures
        ({
            let t = auto_checked(s);
            &&& s.updater_auto_checked ==> t == s
            &&& t.updater_auto_checked
            &&& t == (AppView { updater: t.updater, updater_auto_checked: true, ..s })
            &&& s.updater.busy ==> t.updater == s.updater
            &&& !s.updater_auto_checked ==> t.updater.busy
            &&& t.updater.available == s.updater.available
        }),
{
}

/// An offer that is not shown cannot be answered. One that is goes when it is closed, put off or
/// taken, and stays otherwise; taking it, and nothing else, starts the installation.
pub proof fn offer_goes_when_answered(s: AppView, open: bool, install: bool, later: bool)
    ensures
        ({
            let t = offer_answered(s, open, install, later);
            &&& !s.show_update_modal ==> t == s
            &&& t == (AppView { updater: t.updater, show_update_modal: t.show_update_modal, ..s })
            &&& !open || install || later ==> !t.show_update_modal
            &&& open && !install && !later ==> t == s
            &&& s.show_update_modal && install ==> t.updater.busy
            &&& !install ==> t.updater == s.updater
            &&& s.updater.busy ==> t.updater == s.updater
            &&& t.updater.available == s.updater.available
        }),
{
}

} // verus!
