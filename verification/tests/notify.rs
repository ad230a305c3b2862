use x_notify_service::api::{NotifyRequest, NotifyVia};
use x_notify_service::notify::{
    dispatch, notification_content, Channel, via_for, Admission, PendingPopup, PendingPopupState,
    PopupPresenter, Presenter,
};
use std::cell::RefCell;

#[test]
fn pending_popup_keeps_only_latest_notification() {
    let mut pending = PendingPopupState::default();

    assert!(pending.push(PendingPopup::new("A", "1")));
    assert!(!pending.push(PendingPopup::new("B", "2")));
    assert!(!pending.push(PendingPopup::new("C", "3")));

    let latest = pending.take_latest().unwrap();
    assert_eq!(latest.title, "C");
    assert_eq!(latest.body_html, "3");
    assert!(!pending.finish_delivery());
}

#[test]
fn refresh_continues_when_a_notification_arrived_meanwhile() {
    let mut pending = PendingPopupState::default();
    assert!(pending.push(PendingPopup::new("A", "1")));
    let first = pending.take_latest().unwrap();
    assert_eq!(first.title, "A");
    assert!(!pending.push(PendingPopup::new("B", "2")));
    assert!(pending.finish_delivery());
    assert_eq!(pending.take_latest().unwrap().title, "B");
    assert!(!pending.finish_delivery());
    // the refresh is over: the next push asks for a new one
    assert!(pending.push(PendingPopup::new("C", "3")));
}

#[test]
fn cancel_drops_pending_and_refresh() {
    let mut pending = PendingPopupState::default();
    assert!(pending.push(PendingPopup::new("A", "1")));
    pending.cancel_delivery();
    assert!(pending.take_latest().is_none());
    assert!(pending.push(PendingPopup::new("B", "2")));
}

#[test]
fn popup_enqueue_decisions() {
    let mut pending = PendingPopupState::default();
    assert_eq!(PopupPresenter.enqueue(false, &mut pending, "t", "b"), Admission::Unavailable);
    assert!(pending.take_latest().is_none());
    assert_eq!(PopupPresenter.enqueue(true, &mut pending, "t", "b"), Admission::Schedule);
    assert_eq!(PopupPresenter.enqueue(true, &mut pending, "u", "c"), Admission::Queued);
    assert_eq!(pending.take_latest().unwrap().title, "u");
}

struct Recorder {
    shows: bool,
    seen: RefCell<Vec<(String, String)>>,
}

impl Presenter for Recorder {
    fn present(&self, title: &str, body_html: &str) -> bool {
        self.seen.borrow_mut().push((title.to_string(), body_html.to_string()));
        self.shows
    }
}

#[test]
fn dispatch_prefers_popup_and_falls_back() {
    let req = NotifyRequest { title: "  工单提醒 ".to_string(), body: None };
    let mut popup = Channel::new(Recorder { shows: true, seen: RefCell::new(Vec::new()) });
    let mut system = Channel::new(Recorder { shows: true, seen: RefCell::new(Vec::new()) });
    assert_eq!(dispatch(&mut popup, &mut system, &req), NotifyVia::Popup);
    assert_eq!(popup.presenter().seen.borrow().len(), 1);
    assert_eq!(popup.presenter().seen.borrow()[0], ("工单提醒".to_string(), String::new()));
    assert!(system.presenter().seen.borrow().is_empty());

    let mut popup = Channel::new(Recorder { shows: false, seen: RefCell::new(Vec::new()) });
    let req = NotifyRequest { title: "t".to_string(), body: Some("<b>x</b>".to_string()) };
    assert_eq!(dispatch(&mut popup, &mut system, &req), NotifyVia::System);
    assert_eq!(popup.presenter().seen.borrow().len(), 1);
    assert_eq!(system.presenter().seen.borrow().len(), 1);
    assert_eq!(system.presenter().seen.borrow()[0], ("t".to_string(), "<b>x</b>".to_string()));
}

#[test]
fn content_and_via() {
    let req = NotifyRequest { title: "\t标题\n".to_string(), body: Some("b".to_string()) };
    assert_eq!(notification_content(&req), ("标题".to_string(), "b".to_string()));
    assert_eq!(via_for(true), NotifyVia::Popup);
    assert_eq!(via_for(false), NotifyVia::System);
    assert_eq!(NotifyVia::Popup.as_str(), "popup");
    assert_eq!(NotifyVia::System.as_str(), "system");
}

#[test]
fn settle_maps_admission_and_cancels_failed_refresh() {
    let mut pending = PendingPopupState::default();
    assert!(!PopupPresenter.settle(Admission::Unavailable, true, &mut pending));
    assert!(PopupPresenter.settle(Admission::Queued, false, &mut pending));
    assert_eq!(PopupPresenter.enqueue(true, &mut pending, "t", "b"), Admission::Schedule);
    assert!(PopupPresenter.settle(Admission::Schedule, true, &mut pending));
    assert!(pending.take_latest().is_some());
    // a refused refresh drops the pending notification and allows a new one
    assert_eq!(PopupPresenter.enqueue(true, &mut pending, "u", "c"), Admission::Queued);
    assert!(!PopupPresenter.settle(Admission::Schedule, false, &mut pending));
    assert!(pending.take_latest().is_none());
    assert_eq!(PopupPresenter.enqueue(true, &mut pending, "v", "d"), Admission::Schedule);
}
