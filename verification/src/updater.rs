//! The state of looking for a newer version and installing it.
use crate::text::opt_text;
use vstd::prelude::*;

verus! {

/// What a check or an installation ended with.
#[derive(Clone, Debug)]
pub enum UpdateMessage {
    UpToDate,
    Available { latest: String },
    Installed { new_version: String },
    NoUpdateApplied,
    Error(String),
}

/// What a check or an installation ended with, with texts as sequences.
pub enum MessageView {
    UpToDate,
    Available { latest: Seq<char> },
    Installed { new_version: Seq<char> },
    NoUpdateApplied,
    Error(Seq<char>),
}

impl View for UpdateMessage {
    type V = MessageView;

    open spec fn view(&self) -> MessageView {
        match *self {
            UpdateMessage::UpToDate => MessageView::UpToDate,
            UpdateMessage::Available { latest } => MessageView::Available { latest: latest@ },
            UpdateMessage::Installed { new_version } => MessageView::Installed { new_version: new_version@ },
            UpdateMessage::NoUpdateApplied => MessageView::NoUpdateApplied,
            UpdateMessage::Error(e) => MessageView::Error(e@),
        }
    }
}

/// The message, where there is one.
pub open spec fn opt_message(m: Option<UpdateMessage>) -> Option<MessageView> {
    match m {
        Some(m) => Some(m@),
        None => None,
    }
}

/// Whether a check or an installation is under way, what the last one ended with, and
/// the version that waits to be installed.
#[derive(Debug)]
pub struct UpdateUi {
    pub busy: bool,
    pub last: Option<UpdateMessage>,
    pub available: Option<String>,
}

/// The state of updating with texts as sequences.
pub struct UpdateView {
    pub busy: bool,
    pub last: Option<MessageView>,
    pub available: Option<Seq<char>>,
}

impl View for UpdateUi {
    type V = UpdateView;

    open spec fn view(&self) -> UpdateView {
        UpdateView {
            busy: self.busy,
            last: opt_message(self.last),
            available: opt_text(self.available),
        }
    }
}

/// The version of this program.
pub open spec fn this_version() -> Seq<char> {
    "0.1.0"@
}

/// Which version waits once a message has come: one that is available does, one that
/// was installed or could not be applied does no longer.
pub open spec fn available_after(m: MessageView, before: Option<Seq<char>>) -> Option<Seq<char>> {
    match m {
        MessageView::Available { latest } => Some(latest),
        MessageView::Installed { .. } => None,
        MessageView::NoUpdateApplied => None,
        _ => before,
    }
}

/// The state after a message: no longer busy, and the message kept.
pub open spec fn heard(u: UpdateView, m: MessageView) -> UpdateView {
    UpdateView { busy: false, last: Some(m), available: available_after(m, u.available) }
}

/// The state once something new is under way; it stays as it is while busy.
pub open spec fn started(u: UpdateView) -> UpdateView {
    if u.busy {
        u
    } else {
        UpdateView { busy: true, last: None, available: u.available }
    }
}

impl Default for UpdateUi {
    fn default() -> (r: UpdateUi)
        ensures
            r@ == (UpdateView { busy: false, last: None, available: None }),
    {
        UpdateUi { busy: false, last: None, available: None }
    }
}

impl UpdateUi {
    /// The version of this program.
    pub fn current_version() -> (r: &'static str)
        ensures
            r@ == this_version(),
            r@ == "0.1.0"@,
    {
        "0.1.0"
    }

    /// Takes in a message that has come, if one has, and tells whether there was one.
    /// Nothing is listened to unless something is under way.
    pub fn poll(&mut self, received: Option<UpdateMessage>) -> (r: bool)
        ensures
            r == (old(self).busy && received is Some),
            final(self)@ == (if old(self).busy && received is Some {
                heard(old(self)@, opt_message(received).unwrap())
            } else {
                old(self)@
            }),
    {
        if !self.busy {
            return false;
        }
        match received {
            Some(msg) => {
                self.busy = false;
                match &msg {
                    UpdateMessage::Available { latest } => {
                        self.available = Some(latest.clone());
                    },
                    UpdateMessage::Installed { .. } | UpdateMessage::NoUpdateApplied => {
                        self.available = None;
                    },
                    _ => {},
                }
                self.last = Some(msg);
                true
            },
            None => false,
        }
    }

    /// Notes that a check is to be started, and tells whether to start one.
    pub fn check(&mut self) -> (start: bool)
        ensures
            start == !old(self).busy,
            final(self)@ == started(old(self)@),
    {
        if self.busy {
            return false;
        }
        self.busy = true;
        self.last = None;
        true
    }

    /// Notes that an installation is to be started, and tells whether to start one.
    pub fn install(&mut self) -> (start: bool)
        ensures
            start == !old(self).busy,
            final(self)@ == started(old(self)@),
    {
        if self.busy {
            return false;
        }
        self.busy = true;
        self.last = None;
        true
    }
}

/// What came of asking for a newer version.
#[derive(Debug)]
pub enum CheckOutcome {
    NotReady(String),
    Needed(bool),
    NoRelease,
    Failed(String),
}

/// The message of a check: without a release there is nothing newer.
pub open spec fn check_message(o: CheckOutcome) -> MessageView {
    match o {
        CheckOutcome::NotReady(e) => MessageView::Error(e@),
        CheckOutcome::Needed(false) => MessageView::UpToDate,
        CheckOutcome::Needed(true) => MessageView::Available { latest: "newer"@ },
        CheckOutcome::NoRelease => MessageView::UpToDate,
        CheckOutcome::Failed(e) => MessageView::Error(e@),
    }
}

/// The message that a check ends with.
pub fn run_check(outcome: CheckOutcome) -> (r: UpdateMessage)
    ensures
        r@ == check_message(outcome),
        outcome matches CheckOutcome::NotReady(e) ==> (r matches UpdateMessage::Error(text) && text@ == e@),
        outcome matches CheckOutcome::Failed(e) ==> (r matches UpdateMessage::Error(text) && text@ == e@),
        outcome is NoRelease ==> r is UpToDate,
        outcome matches CheckOutcome::Needed(needed) ==> (if needed {
            r matches UpdateMessage::Available { latest } && latest@ == "newer"@
        } else {
            r is UpToDate
        }),
{
    match outcome {
        CheckOutcome::NotReady(e) => UpdateMessage::Error(e),
        CheckOutcome::Needed(needed) => {
            if needed {
                UpdateMessage::Available { latest: "newer".to_owned() }
            } else {
                UpdateMessage::UpToDate
            }
        },
        CheckOutcome::NoRelease => UpdateMessage::UpToDate,
        CheckOutcome::Failed(e) => UpdateMessage::Error(e),
    }
}

/// What came of an installation.
#[derive(Debug)]
pub enum InstallOutcome {
    NotReady(String),
    Installed(String),
    NothingDone,
    Failed(String),
}

/// The message of an installation.
pub open spec fn install_message(o: InstallOutcome) -> MessageView {
    match o {
        InstallOutcome::NotReady(e) => MessageView::Error(e@),
        InstallOutcome::Installed(v) => MessageView::Installed { new_version: v@ },
        InstallOutcome::NothingDone => MessageView::NoUpdateApplied,
        InstallOutcome::Failed(e) => MessageView::Error(e@),
    }
}

/// The message that an installation ends with.
pub fn run_install(outcome: InstallOutcome) -> (r: UpdateMessage)
    ensures
        r@ == install_message(outcome),
        outcome matches InstallOutcome::NotReady(e) ==> (r matches UpdateMessage::Error(text) && text@ == e@),
        outcome matches InstallOutcome::Failed(e) ==> (r matches UpdateMessage::Error(text) && text@ == e@),
        outcome is NothingDone ==> r is NoUpdateApplied,
        outcome matches InstallOutcome::Installed(v) ==> (r matches UpdateMessage::Installed { new_version }
            && new_version@ == v@),
{
    match outcome {
        InstallOutcome::NotReady(e) => UpdateMessage::Error(e),
        InstallOutcome::Installed(v) => UpdateMessage::Installed { new_version: v },
        InstallOutcome::NothingDone => UpdateMessage::NoUpdateApplied,
        InstallOutcome::Failed(e) => UpdateMessage::Error(e),
    }
}

/// A check that found something newer, followed by its installation, leaves nothing
/// waiting and the new version told.
pub proof fn installing_clears_available(u: UpdateView, version: Seq<char>)
    ensures
        ({
            let found = heard(started(u), MessageView::Available { latest: "newer"@ });
            let done = heard(started(found), MessageView::Installed { new_version: version });
            &&& found.available == Some("newer"@)
            &&& done.available is None
            &&& done.last == Some(MessageView::Installed { new_version: version })
            &&& !done.busy
        }),
{
}

/// While something is under way, starting something else changes nothing, and a failure
/// keeps the version that waits.
pub proof fn busy_and_failing_lose_nothing(u: UpdateView, e: Seq<char>)
    ensures
        started(started(u)) == started(u),
        heard(started(u), MessageView::Error(e)).available == u.available,
{
}

/// A message ends what is under way and is kept. A version that is available waits to be
/// installed; one that was installed, or of which nothing was applied, waits no longer; any
/// other message leaves what waits.
pub proof fn message_decides_what_waits(u: UpdateView, m: MessageView)
    ensures
        !heard(u, m).busy,
        heard(u, m).last == Some(m),
        m matches MessageView::Available { latest } ==> heard(u, m).available == Some(latest),
        m is Installed || m is NoUpdateApplied ==> heard(u, m).available is None,
        m is UpToDate || m is Error ==> heard(u, m).available == u.available,
{
}

/// Starting something forgets the last message and keeps what waits, unless something is under
/// way already.
pub proof fn starting_forgets_the_last_message(u: UpdateView)
    ensures
        u.busy ==> started(u) == u,
        !u.busy ==> started(u).busy && started(u).last is None && started(u).available == u.available,
{
}

/// Messages and the state of updating are spoken of by what their own fields hold.
pub proof fn message_fields_are_spoken_of(m: UpdateMessage, u: UpdateUi)
    ensures
        m is UpToDate ==> m@ is UpToDate,
        m matches UpdateMessage::Available { latest } ==> m@ == (MessageView::Available { latest: latest@ }),
        m matches UpdateMessage::Installed { new_version } ==> m@ == (MessageView::Installed {
            new_version: new_version@,
        }),
        m is NoUpdateApplied ==> m@ is NoUpdateApplied,
        m matches UpdateMessage::Error(e) ==> m@ == MessageView::Error(e@),
        u@.busy == u.busy,
        u.last is None <==> u@.last is None,
        u.last matches Some(last) ==> u@.last == Some(last@),
        u.available is None <==> u@.available is None,
        u.available matches Some(version) ==> u@.available == Some(version@),
{
}

} // verus!
