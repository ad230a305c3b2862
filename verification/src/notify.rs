//! Delivering a notification: the popup first, the system notification when
//! the popup cannot take it. Only the latest pending popup is kept; the GUI
//! thread is asked for one refresh at a time.
use vstd::prelude::*;

use crate::api::{NotifyRequest, NotifyVia};
use crate::text::{trim, trim_bounds};

verus! {

/// A notification waiting for the GUI thread.
pub struct PendingPopup {
    pub title: String,
    pub body_html: String,
}

impl View for PendingPopup {
    type V = (Seq<char>, Seq<char>);

    open spec fn view(&self) -> (Seq<char>, Seq<char>) {
        (self.title@, self.body_html@)
    }
}

impl PendingPopup {
    pub fn new(title: &str, body_html: &str) -> (r: PendingPopup)
        ensures
            r@ == (title@, body_html@),
    {
        PendingPopup { title: title.to_owned(), body_html: body_html.to_owned() }
    }
}

/// Pending-popup state in the abstract: the latest notification not yet
/// shown, and whether a GUI refresh has been asked for.
pub struct PendingView {
    pub latest: Option<(Seq<char>, Seq<char>)>,
    pub scheduled: bool,
}

/// `push`: the new notification replaces any pending one; a refresh is asked
/// for (`true`) only when none is.
pub open spec fn spec_push(s: PendingView, p: (Seq<char>, Seq<char>)) -> (PendingView, bool) {
    (PendingView { latest: Some(p), scheduled: true }, !s.scheduled)
}

/// `take_latest`: hands out the pending notification and clears it.
pub open spec fn spec_take(s: PendingView) -> (PendingView, Option<(Seq<char>, Seq<char>)>) {
    (PendingView { latest: None, scheduled: s.scheduled }, s.latest)
}

/// `finish_delivery`: another refresh is needed (`true`) when a
/// notification arrived meanwhile; else the refresh is over.
pub open spec fn spec_finish(s: PendingView) -> (PendingView, bool) {
    if s.latest is Some {
        (s, true)
    } else {
        (PendingView { latest: None, scheduled: false }, false)
    }
}

/// `cancel_delivery`: drops the pending notification and the refresh.
pub open spec fn spec_cancel(s: PendingView) -> PendingView {
    PendingView { latest: None, scheduled: false }
}

pub open spec fn opt_view(p: Option<PendingPopup>) -> Option<(Seq<char>, Seq<char>)> {
    match p {
        Some(x) => Some(x@),
        None => None,
    }
}

/// Notifications waiting for the GUI thread.
pub struct PendingPopupState {
    latest: Option<PendingPopup>,
    scheduled: bool,
}

impl View for PendingPopupState {
    type V = PendingView;

    closed spec fn view(&self) -> PendingView {
        PendingView { latest: opt_view(self.latest), scheduled: self.scheduled }
    }
}

impl Default for PendingPopupState {
    fn default() -> (r: PendingPopupState)
        ensures
            r@ == (PendingView { latest: None, scheduled: false }),
    {
        PendingPopupState { latest: None, scheduled: false }
    }
}

impl PendingPopupState {
    /// Replaces the pending notification; `true` tells the caller to ask the
    /// GUI thread for a refresh.
    pub fn push(&mut self, pending: PendingPopup) -> (r: bool)
        ensures
            (final(self)@, r) == spec_push(old(self)@, pending@),
    {
        self.latest = Some(pending);
        if self.scheduled {
            false
        } else {
            self.scheduled = true;
            true
        }
    }

    /// Hands out the pending notification.
    pub fn take_latest(&mut self) -> (r: Option<PendingPopup>)
        ensures
            (final(self)@, opt_view(r)) == spec_take(old(self)@),
    {
        self.latest.take()
    }

    /// Ends a refresh; `true` when another is needed.
    pub fn finish_delivery(&mut self) -> (r: bool)
        ensures
            (final(self)@, r) == spec_finish(old(self)@),
    {
        if self.latest.is_some() {
            true
        } else {
            self.scheduled = false;
            false
        }
    }

    /// Drops the pending notification and the refresh (asking the GUI thread
    /// failed).
    pub fn cancel_delivery(&mut self)
        ensures
            final(self)@ == spec_cancel(old(self)@),
    {
        self.latest = None;
        self.scheduled = false;
    }
}

/// Of two notifications pushed one after the other, only the second is
/// handed out.
pub proof fn lemma_latest_wins(s: PendingView, a: (Seq<char>, Seq<char>), b: (Seq<char>, Seq<char>))
    ensures
        spec_take(spec_push(spec_push(s, a).0, b).0).1 == Some(b),
{
}

/// Once a refresh has been asked for, further notifications ask for none
/// until the refresh ends or is cancelled.
pub proof fn lemma_one_refresh(s: PendingView, a: (Seq<char>, Seq<char>), b: (Seq<char>, Seq<char>))
    ensures
        !spec_push(spec_push(s, a).0, b).1,
        spec_push(spec_cancel(spec_push(s, a).0), b).1,
        spec_push(spec_finish(spec_take(spec_push(s, a).0).0).0, b).1,
{
}

/// A refresh that delivered the pending notification ends unless another
/// one arrived meanwhile.
pub proof fn lemma_refresh_ends(s: PendingView, a: (Seq<char>, Seq<char>))
    ensures
        !spec_finish(spec_take(spec_push(s, a).0).0).1,
        spec_finish(spec_push(spec_take(spec_push(s, a).0).0, a).0).1,
{
}

/// A channel that shows notifications to the user.
pub trait Presenter {
    /// Whether `shown` is a result `present` may give for this title and
    /// body. A channel that states nothing about its results keeps the
    /// default, which allows both.
    open spec fn outcome(&self, title: Seq<char>, body_html: Seq<char>, shown: bool) -> bool {
        true
    }

    /// Shows a notification; `false` when this channel could not.
    fn present(&self, title: &str, body_html: &str) -> (shown: bool)
        ensures
            self.outcome(title@, body_html@, shown),
    ;
}

/// A presenter together with a record of what it was asked: each call of
/// `ask` adds the title, the body and the answer. The record is ghost state
/// kept by this library's own code, so it says which calls were made.
pub struct Channel<P: Presenter> {
    presenter: P,
    asked: Ghost<Seq<(Seq<char>, Seq<char>, bool)>>,
}

impl<P: Presenter> Channel<P> {
    /// The presenter behind the channel.
    pub closed spec fn inner(&self) -> P {
        self.presenter
    }

    /// The presenter behind the channel.
    pub fn presenter(&self) -> (r: &P)
        ensures
            *r == self.inner(),
    {
        &self.presenter
    }

    /// The calls made through this channel, in order: title, body, answer.
    pub closed spec fn asked(&self) -> Seq<(Seq<char>, Seq<char>, bool)> {
        self.asked@
    }

    /// A channel that has not been asked anything yet.
    pub fn new(presenter: P) -> (r: Channel<P>)
        ensures
            r.inner() == presenter,
            r.asked() == Seq::<(Seq<char>, Seq<char>, bool)>::empty(),
    {
        Channel { presenter, asked: Ghost(Seq::empty()) }
    }

    /// Asks the presenter to show a notification once, and records it.
    pub fn ask(&mut self, title: &str, body_html: &str) -> (shown: bool)
        ensures
            final(self).inner() == old(self).inner(),
            final(self).asked() == old(self).asked().push((title@, body_html@, shown)),
            old(self).inner().outcome(title@, body_html@, shown),
    {
        let shown = self.presenter.present(title, body_html);
        self.asked = Ghost(self.asked@.push((title@, body_html@, shown)));
        shown
    }
}

/// What the popup channel does with a notification.
#[derive(Debug, Clone, Copy, PartialEq, Eq, Structural)]
pub enum Admission {
    /// The popup is not available: use the next channel.
    Unavailable,
    /// Queued; a refresh is already on its way.
    Queued,
    /// Queued; the caller must ask the GUI thread for a refresh (and cancel
    /// the delivery if that fails).
    Schedule,
}

/// The top-most popup in the bottom-right corner (the main channel).
pub struct PopupPresenter;

impl PopupPresenter {
    /// Queues a notification for the popup when it is available.
    pub fn enqueue(
        &self,
        available: bool,
        state: &mut PendingPopupState,
        title: &str,
        body_html: &str,
    ) -> (r: Admission)
        ensures
            !available ==> r == Admission::Unavailable && final(state)@ == old(state)@,
            available ==> final(state)@ == spec_push(old(state)@, (title@, body_html@)).0 && r == (
            if old(state)@.scheduled {
                Admission::Queued
            } else {
                Admission::Schedule
            }),
    {
        if !available {
            return Admission::Unavailable;
        }
        if state.push(PendingPopup::new(title, body_html)) {
            Admission::Schedule
        } else {
            Admission::Queued
        }
    }

    /// Whether the popup takes the notification, once the admission is known
    /// and, for `Schedule`, whether the GUI thread accepted the refresh
    /// (`handed_over`). When it did not, the pending delivery is cancelled
    /// and the notification goes to the next channel.
    pub fn settle(&self, admission: Admission, handed_over: bool, state: &mut PendingPopupState) -> (r:
        bool)
        ensures
            r == (match admission {
                Admission::Unavailable => false,
                Admission::Queued => true,
                Admission::Schedule => handed_over,
            }),
            final(state)@ == (if admission == Admission::Schedule && !handed_over {
                spec_cancel(old(state)@)
            } else {
                old(state)@
            }),
    {
        match admission {
            Admission::Unavailable => false,
            Admission::Queued => true,
            Admission::Schedule => {
                if !handed_over {
                    state.cancel_delivery();
                }
                handed_over
            },
        }
    }
}

pub open spec fn body_or_empty(body: Option<String>) -> Seq<char> {
    match body {
        Some(b) => b@,
        None => Seq::empty(),
    }
}

/// What a notification shows: the trimmed title and the body (empty when
/// there is none).
pub fn notification_content(req: &NotifyRequest) -> (r: (String, String))
    ensures
        r.0@ == trim(req.title@),
        r.1@ == body_or_empty(req.body),
{
    let chars = crate::text::chars_of(req.title.as_str());
    let (a, b) = trim_bounds(&chars);
    let t = crate::html::attr::sub_chars(&chars, a, b);
    let title = crate::text::string_of(&t);
    let body = match &req.body {
        Some(b) => b.clone(),
        None => String::new(),
    };
    (title, body)
}

/// The channel that showed a notification, given whether the popup took it.
pub fn via_for(popup_shown: bool) -> (r: NotifyVia)
    ensures
        r == (if popup_shown {
            NotifyVia::Popup
        } else {
            NotifyVia::System
        }),
{
    if popup_shown {
        NotifyVia::Popup
    } else {
        NotifyVia::System
    }
}

/// Delivers a notification through one channel: the popup first; the
/// system notification only when the popup refused it. Each channel asked
/// is asked once, with the trimmed title and the body (empty when there is
/// none); `Popup` is reported exactly when the popup showed it.
pub fn dispatch<P: Presenter, S: Presenter>(
    popup: &mut Channel<P>,
    system: &mut Channel<S>,
    req: &NotifyRequest,
) -> (r: NotifyVia)
    ensures
        final(popup).inner() == old(popup).inner(),
        final(system).inner() == old(system).inner(),
        final(popup).asked() == old(popup).asked().push(
            (trim(req.title@), body_or_empty(req.body), r == NotifyVia::Popup),
        ),
        old(popup).inner().outcome(trim(req.title@), body_or_empty(req.body), r == NotifyVia::Popup),
        r == NotifyVia::Popup ==> final(system).asked() == old(system).asked(),
        r == NotifyVia::System ==> final(system).asked().len() == old(system).asked().len() + 1
            && final(system).asked().drop_last() == old(system).asked()
            && final(system).asked().last().0 == trim(req.title@)
            && final(system).asked().last().1 == body_or_empty(req.body)
            && old(system).inner().outcome(
            trim(req.title@),
            body_or_empty(req.body),
            final(system).asked().last().2,
        ),
{
    let (title, body) = notification_content(req);
    let shown = popup.ask(title.as_str(), body.as_str());
    if !shown {
        let ghost before = system.asked();
        system.ask(title.as_str(), body.as_str());
        assert(system.asked().drop_last() =~= before);
    }
    via_for(shown)
}

} // verus!
